use crate::text::chars_of;
use vstd::prelude::*;

verus! {

/// The length of a generated password unless another is asked for.
pub const DEFAULT_PASSWORD_LENGTH: usize = 16;

/// Which characters a generated password may use, and how long it is.
#[derive(Debug, Clone, Copy, PartialEq, Eq, Structural)]
pub struct PasswordOptions {
    pub length: usize,
    pub use_uppercase: bool,
    pub use_lowercase: bool,
    pub use_numbers: bool,
    pub use_symbols: bool,
    pub exclude_ambiguous: bool,
}

impl Default for PasswordOptions {
    fn default() -> (r: Self)
        ensures
            r.length == DEFAULT_PASSWORD_LENGTH,
            r.use_uppercase && r.use_lowercase && r.use_numbers && r.use_symbols,
            !r.exclude_ambiguous,
    {
        PasswordOptions {
            length: DEFAULT_PASSWORD_LENGTH,
            use_uppercase: true,
            use_lowercase: true,
            use_numbers: true,
            use_symbols: true,
            exclude_ambiguous: false,
        }
    }
}

/// Characters easily mistaken for one another: `0`, `O`, `l` and `I`.
pub open spec fn is_ambiguous(c: char) -> bool {
    c == '0' || c == 'O' || c == 'l' || c == 'I'
}

/// `s` without its ambiguous characters, in order.
pub open spec fn without_ambiguous(s: Seq<char>) -> Seq<char>
    decreases s.len(),
{
    if s.len() == 0 {
        Seq::empty()
    } else if is_ambiguous(s.last()) {
        without_ambiguous(s.drop_last())
    } else {
        without_ambiguous(s.drop_last()).push(s.last())
    }
}

/// The character set that `o` selects: upper-case letters, lower-case
/// letters, digits and symbols, each where enabled and in that order, less
/// the ambiguous characters where they are excluded.
pub open spec fn charset_of(o: PasswordOptions) -> Seq<char> {
    let all = (if o.use_uppercase { "ABCDEFGHIJKLMNOPQRSTUVWXYZ"@ } else { Seq::empty() })
        + (if o.use_lowercase { "abcdefghijklmnopqrstuvwxyz"@ } else { Seq::empty() })
        + (if o.use_numbers { "0123456789"@ } else { Seq::empty() })
        + (if o.use_symbols { "!@#$%^&*()_+-=[]{}|;:,.<>?"@ } else { Seq::empty() });
    if o.exclude_ambiguous {
        without_ambiguous(all)
    } else {
        all
    }
}

fn append_chars(out: &mut Vec<char>, s: &str)
    ensures
        final(out)@ == old(out)@ + s@,
{
    let cs = chars_of(s);
    let mut i: usize = 0;
    while i < cs.len()
        invariant
            cs@ == s@,
            i <= cs@.len(),
            out@ == old(out)@ + cs@.subrange(0, i as int),
        decreases cs@.len() - i,
    {
        out.push(cs[i]);
        i = i + 1;
        assert(out@ =~= old(out)@ + cs@.subrange(0, i as int));
    }
    assert(cs@.subrange(0, i as int) =~= cs@);
}

impl PasswordOptions {
    /// The character set these options select.
    pub fn charset(&self) -> (r: Vec<char>)
        ensures
            r@ == charset_of(*self),
    {
        let mut all: Vec<char> = Vec::new();
        if self.use_uppercase {
            append_chars(&mut all, "ABCDEFGHIJKLMNOPQRSTUVWXYZ");
        }
        if self.use_lowercase {
            append_chars(&mut all, "abcdefghijklmnopqrstuvwxyz");
        }
        if self.use_numbers {
            append_chars(&mut all, "0123456789");
        }
        if self.use_symbols {
            append_chars(&mut all, "!@#$%^&*()_+-=[]{}|;:,.<>?");
        }
        assert(all@ =~= (if self.use_uppercase { "ABCDEFGHIJKLMNOPQRSTUVWXYZ"@ } else { Seq::empty() })
            + (if self.use_lowercase { "abcdefghijklmnopqrstuvwxyz"@ } else { Seq::empty() })
            + (if self.use_numbers { "0123456789"@ } else { Seq::empty() })
            + (if self.use_symbols { "!@#$%^&*()_+-=[]{}|;:,.<>?"@ } else { Seq::empty() }));
        if !self.exclude_ambiguous {
            return all;
        }
        let mut kept: Vec<char> = Vec::new();
        let mut i: usize = 0;
        while i < all.len()
            invariant
                i <= all@.len(),
                kept@ == without_ambiguous(all@.subrange(0, i as int)),
            decreases all@.len() - i,
        {
            let c = all[i];
            proof {
                assert(all@.subrange(0, i + 1).drop_last() =~= all@.subrange(0, i as int));
            }
            if !(c == '0' || c == 'O' || c == 'l' || c == 'I') {
                kept.push(c);
            }
            i = i + 1;
        }
        assert(all@.subrange(0, i as int) =~= all@);
        kept
    }

    /// The password that a sequence of random draws picks from the character
    /// set: one character per draw, the draw taken modulo the set's size;
    /// empty where the set is.
    pub fn password_from_draws(&self, draws: &Vec<u64>) -> (r: Vec<char>)
        ensures
            charset_of(*self).len() == 0 ==> r@.len() == 0,
            charset_of(*self).len() > 0 ==> r@.len() == draws@.len() && forall|i: int|
                0 <= i < draws@.len() ==> #[trigger] r@[i] == charset_of(*self)[(draws@[i] as int) % charset_of(
                    *self,
                ).len() as int],
    {
        let set = self.charset();
        let mut out: Vec<char> = Vec::new();
        if set.len() == 0 {
            return out;
        }
        let n = set.len() as u64;
        let mut i: usize = 0;
        while i < draws.len()
            invariant
                set@ == charset_of(*self),
                set@.len() > 0,
                n as int == set@.len(),
                i <= draws@.len(),
                out@.len() == i,
                forall|j: int| 0 <= j < i ==> #[trigger] out@[j] == set@[(draws@[j] as int) % (set@.len() as int)],
            decreases draws@.len() - i,
        {
            let k = (draws[i] % n) as usize;
            out.push(set[k]);
            i = i + 1;
        }
        out
    }
}

} // verus!
