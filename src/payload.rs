use crate::entry::{Entry, EntryView};
use vstd::prelude::*;
use vstd::utf8::encode_utf8;

verus! {

broadcast use vstd::utf8::encode_utf8_decode_utf8;

/// The double quote byte.
pub const QUOTE: u8 = 34;

/// The backslash byte.
pub const BACKSLASH: u8 = 92;

/// The bytes of an ASCII character sequence.
pub open spec fn ascii(s: Seq<char>) -> Seq<u8> {
    s.map_values(|c: char| c as u8)
}

/// `{"entries":[`
pub open spec fn payload_head() -> Seq<u8> {
    ascii(seq!['{', '"', 'e', 'n', 't', 'r', 'i', 'e', 's', '"', ':', '['])
}

/// `]}`
pub open spec fn payload_tail() -> Seq<u8> {
    ascii(seq![']', '}'])
}

/// `,`
pub open spec fn separator() -> Seq<u8> {
    ascii(seq![','])
}

/// `{"name":"`
pub open spec fn name_key() -> Seq<u8> {
    ascii(seq!['{', '"', 'n', 'a', 'm', 'e', '"', ':', '"'])
}

/// `","username":"`
pub open spec fn username_key() -> Seq<u8> {
    ascii(seq!['"', ',', '"', 'u', 's', 'e', 'r', 'n', 'a', 'm', 'e', '"', ':', '"'])
}

/// `","password":"`
pub open spec fn password_key() -> Seq<u8> {
    ascii(seq!['"', ',', '"', 'p', 'a', 's', 's', 'w', 'o', 'r', 'd', '"', ':', '"'])
}

/// `"}`
pub open spec fn entry_end() -> Seq<u8> {
    ascii(seq!['"', '}'])
}

/// The lower-case hexadecimal digit of a value below 16.
pub open spec fn hex_digit(d: u8) -> u8 {
    if d < 10 {
        (48 + d) as u8
    } else {
        (87 + d) as u8
    }
}

/// How one byte of a string is written inside a JSON string literal: the
/// quote, the backslash and the control bytes are escaped (with the short
/// forms where JSON has them), every other byte stands for itself.
pub open spec fn escape_byte(c: u8) -> Seq<u8> {
    if c == QUOTE {
        seq![BACKSLASH, QUOTE]
    } else if c == BACKSLASH {
        seq![BACKSLASH, BACKSLASH]
    } else if c == 8 {
        seq![BACKSLASH, 'b' as u8]
    } else if c == 9 {
        seq![BACKSLASH, 't' as u8]
    } else if c == 10 {
        seq![BACKSLASH, 'n' as u8]
    } else if c == 12 {
        seq![BACKSLASH, 'f' as u8]
    } else if c == 13 {
        seq![BACKSLASH, 'r' as u8]
    } else if c < 32 {
        seq![BACKSLASH, 'u' as u8, '0' as u8, '0' as u8, hex_digit(c / 16), hex_digit(c % 16)]
    } else {
        seq![c]
    }
}

/// The escaped form of a byte string, without the surrounding quotes.
pub open spec fn escaped(s: Seq<u8>) -> Seq<u8>
    decreases s.len(),
{
    if s.len() == 0 {
        Seq::empty()
    } else {
        escape_byte(s[0]) + escaped(s.drop_first())
    }
}

/// A text field as it stands in the payload: its UTF-8 bytes, escaped.
pub open spec fn field_bytes(s: Seq<char>) -> Seq<u8> {
    escaped(encode_utf8(s))
}

/// One entry as a JSON object with the fields name, username and password.
pub open spec fn entry_bytes(e: EntryView) -> Seq<u8> {
    name_key() + field_bytes(e.name) + username_key() + field_bytes(e.username) + password_key()
        + field_bytes(e.password) + entry_end()
}

/// The entries after the first, each preceded by a separator.
pub open spec fn later_entries(es: Seq<EntryView>) -> Seq<u8>
    decreases es.len(),
{
    if es.len() == 0 {
        Seq::empty()
    } else {
        separator() + entry_bytes(es[0]) + later_entries(es.drop_first())
    }
}

/// The comma-separated entries of a list.
pub open spec fn entry_list(es: Seq<EntryView>) -> Seq<u8> {
    if es.len() == 0 {
        Seq::empty()
    } else {
        entry_bytes(es[0]) + later_entries(es.drop_first())
    }
}

/// The plaintext payload of a vault: compact JSON of the shape
/// `{"entries":[{"name":..,"username":..,"password":..},..]}`.
pub open spec fn payload_bytes(es: Seq<EntryView>) -> Seq<u8> {
    payload_head() + entry_list(es) + payload_tail()
}

/// The entry list that `bytes` is the payload of, if any.
pub open spec fn payload_entries(bytes: Seq<u8>) -> Option<Seq<EntryView>> {
    if exists|es: Seq<EntryView>| #[trigger] payload_bytes(es) == bytes {
        Some(choose|es: Seq<EntryView>| #[trigger] payload_bytes(es) == bytes)
    } else {
        None
    }
}

/// The views of a sequence of entries.
pub open spec fn views(es: Seq<Entry>) -> Seq<EntryView> {
    es.map_values(|e: Entry| e@)
}

fn ascii_bytes(cs: &[char]) -> (r: Vec<u8>)
    ensures
        r@ == ascii(cs@),
{
    let mut out: Vec<u8> = Vec::new();
    let mut i: usize = 0;
    while i < cs.len()
        invariant
            i <= cs@.len(),
            out@ == ascii(cs@.subrange(0, i as int)),
        decreases cs@.len() - i,
    {
        out.push(cs[i] as u8);
        i = i + 1;
        assert(ascii(cs@.subrange(0, i as int)) =~= ascii(cs@.subrange(0, i - 1)).push(cs@[i - 1] as u8));
    }
    assert(cs@.subrange(0, i as int) =~= cs@);
    out
}

fn head_token() -> (r: Vec<u8>)
    ensures
        r@ == payload_head(),
{
    let cs = ['{', '"', 'e', 'n', 't', 'r', 'i', 'e', 's', '"', ':', '['];
    assert(cs@ =~= seq!['{', '"', 'e', 'n', 't', 'r', 'i', 'e', 's', '"', ':', '[']);
    ascii_bytes(&cs)
}

fn tail_token() -> (r: Vec<u8>)
    ensures
        r@ == payload_tail(),
{
    let cs = [']', '}'];
    assert(cs@ =~= seq![']', '}']);
    ascii_bytes(&cs)
}

fn separator_token() -> (r: Vec<u8>)
    ensures
        r@ == separator(),
{
    let cs = [','];
    assert(cs@ =~= seq![',']);
    ascii_bytes(&cs)
}

fn name_token() -> (r: Vec<u8>)
    ensures
        r@ == name_key(),
{
    let cs = ['{', '"', 'n', 'a', 'm', 'e', '"', ':', '"'];
    assert(cs@ =~= seq!['{', '"', 'n', 'a', 'm', 'e', '"', ':', '"']);
    ascii_bytes(&cs)
}

fn username_token() -> (r: Vec<u8>)
    ensures
        r@ == username_key(),
{
    let cs = ['"', ',', '"', 'u', 's', 'e', 'r', 'n', 'a', 'm', 'e', '"', ':', '"'];
    assert(cs@ =~= seq!['"', ',', '"', 'u', 's', 'e', 'r', 'n', 'a', 'm', 'e', '"', ':', '"']);
    ascii_bytes(&cs)
}

fn password_token() -> (r: Vec<u8>)
    ensures
        r@ == password_key(),
{
    let cs = ['"', ',', '"', 'p', 'a', 's', 's', 'w', 'o', 'r', 'd', '"', ':', '"'];
    assert(cs@ =~= seq!['"', ',', '"', 'p', 'a', 's', 's', 'w', 'o', 'r', 'd', '"', ':', '"']);
    ascii_bytes(&cs)
}

fn entry_end_token() -> (r: Vec<u8>)
    ensures
        r@ == entry_end(),
{
    let cs = ['"', '}'];
    assert(cs@ =~= seq!['"', '}']);
    ascii_bytes(&cs)
}

fn push_all(out: &mut Vec<u8>, b: &[u8])
    ensures
        final(out)@ == old(out)@ + b@,
{
    let mut i: usize = 0;
    while i < b.len()
        invariant
            i <= b@.len(),
            out@ == old(out)@ + b@.subrange(0, i as int),
        decreases b@.len() - i,
    {
        out.push(b[i]);
        i = i + 1;
        assert(b@.subrange(0, i as int) =~= b@.subrange(0, i - 1).push(b@[i - 1]));
    }
    assert(b@.subrange(0, i as int) =~= b@);
}

fn hex_digit_exec(d: u8) -> (r: u8)
    requires
        d < 16,
    ensures
        r == hex_digit(d),
{
    if d < 10 {
        48 + d
    } else {
        87 + d
    }
}

fn escape_byte_exec(c: u8) -> (r: Vec<u8>)
    ensures
        r@ == escape_byte(c),
{
    let v: Vec<u8> = if c == QUOTE {
        vec![BACKSLASH, QUOTE]
    } else if c == BACKSLASH {
        vec![BACKSLASH, BACKSLASH]
    } else if c == 8 {
        vec![BACKSLASH, 'b' as u8]
    } else if c == 9 {
        vec![BACKSLASH, 't' as u8]
    } else if c == 10 {
        vec![BACKSLASH, 'n' as u8]
    } else if c == 12 {
        vec![BACKSLASH, 'f' as u8]
    } else if c == 13 {
        vec![BACKSLASH, 'r' as u8]
    } else if c < 32 {
        vec![BACKSLASH, 'u' as u8, '0' as u8, '0' as u8, hex_digit_exec(c / 16), hex_digit_exec(c % 16)]
    } else {
        vec![c]
    };
    assert(v@ =~= escape_byte(c));
    v
}

fn push_field(out: &mut Vec<u8>, s: &String)
    ensures
        final(out)@ == old(out)@ + field_bytes(s@),
{
    let b = s.as_str().as_bytes();
    let ghost target = old(out)@ + escaped(b@);
    assert(b@.skip(0) =~= b@);
    let mut i: usize = 0;
    while i < b.len()
        invariant
            i <= b@.len(),
            out@ + escaped(b@.skip(i as int)) == target,
        decreases b@.len() - i,
    {
        let piece = escape_byte_exec(b[i]);
        proof {
            assert(b@.skip(i as int).drop_first() =~= b@.skip(i + 1));
            assert(escaped(b@.skip(i as int)) == escape_byte(b@[i as int]) + escaped(b@.skip(i + 1)));
        }
        let ghost before = out@;
        push_all(out, piece.as_slice());
        i = i + 1;
        assert(out@ + escaped(b@.skip(i as int)) =~= before + escaped(b@.skip(i - 1)));
    }
    assert(b@.skip(i as int) =~= Seq::<u8>::empty());
    assert(out@ =~= target);
}

fn push_entry(out: &mut Vec<u8>, e: &Entry)
    ensures
        final(out)@ == old(out)@ + entry_bytes(e@),
{
    push_all(out, name_token().as_slice());
    push_field(out, &e.name);
    push_all(out, username_token().as_slice());
    push_field(out, &e.username);
    push_all(out, password_token().as_slice());
    push_field(out, &e.password);
    push_all(out, entry_end_token().as_slice());
    assert(out@ =~= old(out)@ + entry_bytes(e@));
}

/// Serializes a list of entries to the plaintext payload.
pub fn encode_payload(entries: &Vec<Entry>) -> (r: Vec<u8>)
    ensures
        r@ == payload_bytes(views(entries@)),
{
    let ghost es = views(entries@);
    let mut out = head_token();
    if entries.len() > 0 {
        push_entry(&mut out, &entries[0]);
        let mut i: usize = 1;
        while i < entries.len()
            invariant
                1 <= i <= entries@.len(),
                es == views(entries@),
                out@ + later_entries(es.skip(i as int)) == payload_head() + entry_list(es),
            decreases entries@.len() - i,
        {
            let ghost before = out@;
            proof {
                assert(es.skip(i as int).drop_first() =~= es.skip(i + 1));
            }
            push_all(&mut out, separator_token().as_slice());
            push_entry(&mut out, &entries[i]);
            i = i + 1;
            assert(out@ + later_entries(es.skip(i as int)) =~= before + later_entries(es.skip(i - 1)));
        }
        assert(es.skip(i as int) =~= Seq::<EntryView>::empty());
        assert(es.drop_first() =~= es.skip(1));
    }
    push_all(&mut out, tail_token().as_slice());
    assert(out@ =~= payload_bytes(es));
    out
}

proof fn lemma_token_facts()
    ensures
        payload_head().len() == 12,
        payload_tail().len() == 2,
        payload_tail()[0] == 93,
        separator().len() == 1,
        separator()[0] == 44,
        name_key()[0] == 123,
        username_key()[0] == QUOTE,
        password_key()[0] == QUOTE,
        entry_end()[0] == QUOTE,
{
}

proof fn lemma_escape_byte_shape(c: u8)
    ensures
        1 <= escape_byte(c).len() <= 6,
        escape_byte(c)[0] != QUOTE,
{
}

/// No escaped byte is a proper prefix of another: the escape code is prefix-free.
proof fn lemma_escape_prefix_free(a: u8, b: u8, x: Seq<u8>, y: Seq<u8>)
    requires
        escape_byte(a) + x == escape_byte(b) + y,
    ensures
        a == b,
{
    let ea = escape_byte(a);
    let eb = escape_byte(b);
    let s = ea + x;
    assert(s[0] == ea[0]);
    assert((eb + y)[0] == eb[0]);
    if ea.len() >= 2 && eb.len() >= 2 {
        assert(s[1] == ea[1]);
        assert((eb + y)[1] == eb[1]);
    }
    if ea.len() == 6 && eb.len() == 6 {
        assert(s[4] == ea[4]);
        assert((eb + y)[4] == eb[4]);
        assert(s[5] == ea[5]);
        assert((eb + y)[5] == eb[5]);
        assert(a / 16 == b / 16);
        assert(a % 16 == b % 16);
        assert(a == b) by (nonlinear_arith)
            requires
                a / 16 == b / 16,
                a % 16 == b % 16,
        ;
    }
}

proof fn lemma_escaped_skip(s: Seq<u8>, i: int)
    requires
        0 <= i < s.len(),
    ensures
        escaped(s.skip(i)) == escape_byte(s[i]) + escaped(s.skip(i + 1)),
{
    assert(s.skip(i).drop_first() =~= s.skip(i + 1));
}

/// An escaped string followed by a closing quote determines the string and
/// what follows the quote.
proof fn lemma_escaped_unique(s1: Seq<u8>, s2: Seq<u8>, x: Seq<u8>, y: Seq<u8>)
    requires
        x.len() > 0,
        x[0] == QUOTE,
        y.len() > 0,
        y[0] == QUOTE,
        escaped(s1) + x == escaped(s2) + y,
    ensures
        s1 == s2,
        x == y,
    decreases s1.len(),
{
    if s1.len() == 0 {
        assert(escaped(s1) + x =~= x);
        if s2.len() > 0 {
            lemma_escape_byte_shape(s2[0]);
            assert((escaped(s2) + y)[0] == escape_byte(s2[0])[0]);
        }
        assert(escaped(s2) + y =~= y);
        assert(s1 =~= s2);
    } else {
        lemma_escape_byte_shape(s1[0]);
        if s2.len() == 0 {
            assert(escaped(s2) + y =~= y);
            assert((escaped(s1) + x)[0] == escape_byte(s1[0])[0]);
        }
        let r1 = escaped(s1.drop_first()) + x;
        let r2 = escaped(s2.drop_first()) + y;
        assert(escaped(s1) + x =~= escape_byte(s1[0]) + r1);
        assert(escaped(s2) + y =~= escape_byte(s2[0]) + r2);
        lemma_escape_prefix_free(s1[0], s2[0], r1, r2);
        let n = escape_byte(s1[0]).len() as int;
        assert(r1 =~= (escape_byte(s1[0]) + r1).skip(n));
        assert(r2 =~= (escape_byte(s2[0]) + r2).skip(n));
        lemma_escaped_unique(s1.drop_first(), s2.drop_first(), x, y);
        assert(s1 =~= seq![s1[0]] + s1.drop_first());
        assert(s2 =~= seq![s2[0]] + s2.drop_first());
    }
}

proof fn lemma_strip_prefix(p: Seq<u8>, x: Seq<u8>, y: Seq<u8>)
    requires
        p + x == p + y,
    ensures
        x == y,
{
    assert(x =~= (p + x).skip(p.len() as int));
    assert(y =~= (p + y).skip(p.len() as int));
}

proof fn lemma_field_unique(f1: Seq<char>, f2: Seq<char>, x: Seq<u8>, y: Seq<u8>)
    requires
        x.len() > 0,
        x[0] == QUOTE,
        y.len() > 0,
        y[0] == QUOTE,
        field_bytes(f1) + x == field_bytes(f2) + y,
    ensures
        f1 == f2,
        x == y,
{
    lemma_escaped_unique(encode_utf8(f1), encode_utf8(f2), x, y);
    assert(vstd::utf8::decode_utf8(encode_utf8(f1)) == f1);
    assert(vstd::utf8::decode_utf8(encode_utf8(f2)) == f2);
}

proof fn lemma_keyed_field_unique(k: Seq<u8>, f1: Seq<char>, f2: Seq<char>, r1: Seq<u8>, r2: Seq<u8>)
    requires
        r1.len() > 0,
        r1[0] == QUOTE,
        r2.len() > 0,
        r2[0] == QUOTE,
        k + (field_bytes(f1) + r1) == k + (field_bytes(f2) + r2),
    ensures
        f1 == f2,
        r1 == r2,
{
    lemma_strip_prefix(k, field_bytes(f1) + r1, field_bytes(f2) + r2);
    lemma_field_unique(f1, f2, r1, r2);
}

proof fn lemma_entry_tail_quotes(x: Seq<u8>)
    ensures
        (username_key() + x)[0] == QUOTE,
        (password_key() + x)[0] == QUOTE,
        (entry_end() + x)[0] == QUOTE,
{
    lemma_token_facts();
}

/// An entry's bytes followed by anything determine the entry and the rest.
proof fn lemma_entry_unique(e1: EntryView, e2: EntryView, x: Seq<u8>, y: Seq<u8>)
    requires
        entry_bytes(e1) + x == entry_bytes(e2) + y,
    ensures
        e1 == e2,
        x == y,
{
    let t1 = entry_end() + x;
    let t2 = entry_end() + y;
    let pw_rest1 = password_key() + (field_bytes(e1.password) + t1);
    let pw_rest2 = password_key() + (field_bytes(e2.password) + t2);
    let u1 = username_key() + (field_bytes(e1.username) + pw_rest1);
    let u2 = username_key() + (field_bytes(e2.username) + pw_rest2);
    lemma_entry_bytes_nested(e1, x);
    lemma_entry_bytes_nested(e2, y);
    lemma_entry_tail_quotes(field_bytes(e1.username) + pw_rest1);
    lemma_entry_tail_quotes(field_bytes(e2.username) + pw_rest2);
    lemma_keyed_field_unique(name_key(), e1.name, e2.name, u1, u2);
    lemma_entry_tail_quotes(field_bytes(e1.password) + t1);
    lemma_entry_tail_quotes(field_bytes(e2.password) + t2);
    lemma_keyed_field_unique(username_key(), e1.username, e2.username, pw_rest1, pw_rest2);
    lemma_entry_tail_quotes(x);
    lemma_entry_tail_quotes(y);
    lemma_keyed_field_unique(password_key(), e1.password, e2.password, t1, t2);
    lemma_strip_prefix(entry_end(), x, y);
}

proof fn lemma_entry_bytes_nested(e: EntryView, x: Seq<u8>)
    ensures
        entry_bytes(e) + x == name_key() + (field_bytes(e.name) + (username_key() + (field_bytes(e.username)
            + (password_key() + (field_bytes(e.password) + (entry_end() + x)))))),
{
    assert(entry_bytes(e) + x =~= name_key() + (field_bytes(e.name) + (username_key() + (field_bytes(e.username)
        + (password_key() + (field_bytes(e.password) + (entry_end() + x)))))));
}

proof fn lemma_later_entries_unique(a: Seq<EntryView>, b: Seq<EntryView>)
    requires
        later_entries(a) + payload_tail() == later_entries(b) + payload_tail(),
    ensures
        a == b,
    decreases a.len(),
{
    lemma_token_facts();
    if a.len() == 0 {
        assert(later_entries(a) + payload_tail() =~= payload_tail());
        if b.len() > 0 {
            assert((later_entries(b) + payload_tail())[0] == separator()[0]);
        }
        assert(a =~= b);
    } else {
        if b.len() == 0 {
            assert(later_entries(b) + payload_tail() =~= payload_tail());
            assert((later_entries(a) + payload_tail())[0] == separator()[0]);
        }
        let r1 = later_entries(a.drop_first()) + payload_tail();
        let r2 = later_entries(b.drop_first()) + payload_tail();
        assert(later_entries(a) + payload_tail() =~= separator() + (entry_bytes(a[0]) + r1));
        assert(later_entries(b) + payload_tail() =~= separator() + (entry_bytes(b[0]) + r2));
        lemma_strip_prefix(separator(), entry_bytes(a[0]) + r1, entry_bytes(b[0]) + r2);
        lemma_entry_unique(a[0], b[0], r1, r2);
        lemma_later_entries_unique(a.drop_first(), b.drop_first());
        assert(a =~= seq![a[0]] + a.drop_first());
        assert(b =~= seq![b[0]] + b.drop_first());
    }
}

/// Two entry lists with the same payload are the same list.
pub proof fn lemma_payload_injective(a: Seq<EntryView>, b: Seq<EntryView>)
    requires
        payload_bytes(a) == payload_bytes(b),
    ensures
        a == b,
{
    lemma_token_facts();
    assert(payload_bytes(a) =~= payload_head() + (entry_list(a) + payload_tail()));
    assert(payload_bytes(b) =~= payload_head() + (entry_list(b) + payload_tail()));
    lemma_strip_prefix(payload_head(), entry_list(a) + payload_tail(), entry_list(b) + payload_tail());
    if a.len() == 0 || b.len() == 0 {
        if a.len() > 0 {
            assert((entry_list(a) + payload_tail())[0] == name_key()[0]);
            assert(entry_list(b) + payload_tail() =~= payload_tail());
        }
        if b.len() > 0 {
            assert((entry_list(b) + payload_tail())[0] == name_key()[0]);
            assert(entry_list(a) + payload_tail() =~= payload_tail());
        }
        assert(a =~= b);
    } else {
        let r1 = later_entries(a.drop_first()) + payload_tail();
        let r2 = later_entries(b.drop_first()) + payload_tail();
        assert(entry_list(a) + payload_tail() =~= entry_bytes(a[0]) + r1);
        assert(entry_list(b) + payload_tail() =~= entry_bytes(b[0]) + r2);
        lemma_entry_unique(a[0], b[0], r1, r2);
        lemma_later_entries_unique(a.drop_first(), b.drop_first());
        assert(a =~= seq![a[0]] + a.drop_first());
        assert(b =~= seq![b[0]] + b.drop_first());
    }
}

/// Decoding the payload of an entry list gives that list back.
pub proof fn lemma_payload_round_trip(es: Seq<EntryView>)
    ensures
        payload_entries(payload_bytes(es)) == Some(es),
{
    let b = payload_bytes(es);
    assert(exists|x: Seq<EntryView>| #[trigger] payload_bytes(x) == b);
    let w = choose|x: Seq<EntryView>| #[trigger] payload_bytes(x) == b;
    lemma_payload_injective(w, es);
}

/// Relies on std's `String::from_utf8`: it succeeds exactly on the byte
/// strings that are UTF-8, and the string then holds those bytes.
#[verifier::external_body]
fn string_from_utf8(bytes: Vec<u8>) -> (r: Option<String>)
    ensures
        match r {
            Some(s) => encode_utf8(s@) == bytes@,
            None => forall|cs: Seq<char>| encode_utf8(cs) != bytes@,
        },
{
    String::from_utf8(bytes).ok()
}

fn bytes_equal(a: &[u8], b: &[u8]) -> (r: bool)
    ensures
        r == (a@ == b@),
{
    if a.len() != b.len() {
        return false;
    }
    let mut i: usize = 0;
    while i < a.len()
        invariant
            a@.len() == b@.len(),
            i <= a@.len(),
            forall|j: int| 0 <= j < i ==> a@[j] == b@[j],
        decreases a@.len() - i,
    {
        if a[i] != b[i] {
            return false;
        }
        i = i + 1;
    }
    assert(a@ =~= b@);
    true
}

fn expect_token(b: &[u8], pos: usize, tok: &Vec<u8>) -> (r: bool)
    ensures
        r == (pos + tok@.len() <= b@.len() && b@.subrange(pos as int, pos + tok@.len()) == tok@),
{
    if tok.len() > b.len() || pos > b.len() - tok.len() {
        return false;
    }
    let mut i: usize = 0;
    while i < tok.len()
        invariant
            pos + tok@.len() <= b@.len() <= usize::MAX,
            i <= tok@.len(),
            forall|j: int| 0 <= j < i ==> b@[pos + j] == tok@[j],
        decreases tok@.len() - i,
    {
        if b[pos + i] != tok[i] {
            assert(b@.subrange(pos as int, pos + tok@.len())[i as int] != tok@[i as int]);
            return false;
        }
        i = i + 1;
    }
    assert(b@.subrange(pos as int, pos + tok@.len()) =~= tok@);
    true
}

/// `b` holds `piece` at `at`.
pub open spec fn holds_at(b: Seq<u8>, at: int, piece: Seq<u8>) -> bool {
    0 <= at && at + piece.len() <= b.len() && b.subrange(at, at + piece.len()) == piece
}

fn hex_value(d: u8) -> (r: Option<u8>)
    ensures
        forall|v: u8| v < 16 && d == hex_digit(v) ==> r == Some(v),
        r matches Some(v) ==> v < 16,
{
    if 48 <= d && d <= 57 {
        Some(d - 48)
    } else if 97 <= d && d <= 102 {
        Some(d - 87)
    } else {
        None
    }
}

/// Reads one escaped byte at `k`; where `b` holds the escape of `c` there, it
/// reads `c`.
fn decode_unit(b: &[u8], k: usize, Ghost(c): Ghost<u8>) -> (r: Option<(u8, usize)>)
    requires
        k < b@.len(),
    ensures
        r matches Some((_, n)) ==> 1 <= n && k + n <= b@.len(),
        holds_at(b@, k as int, escape_byte(c)) ==> r == Some((c, escape_byte(c).len() as usize)),
{
    let ghost e = escape_byte(c);
    let ghost h = holds_at(b@, k as int, e);
    proof {
        if h {
            assert(b@[k as int] == b@.subrange(k as int, k + e.len())[0]);
            if e.len() >= 2 {
                assert(b@[k + 1] == b@.subrange(k as int, k + e.len())[1]);
            }
            if e.len() == 6 {
                assert(b@[k + 2] == b@.subrange(k as int, k + e.len())[2]);
                assert(b@[k + 3] == b@.subrange(k as int, k + e.len())[3]);
                assert(b@[k + 4] == b@.subrange(k as int, k + e.len())[4]);
                assert(b@[k + 5] == b@.subrange(k as int, k + e.len())[5]);
            }
        }
    }
    let first = b[k];
    if first != BACKSLASH {
        return Some((first, 1));
    }
    if k + 1 >= b.len() {
        return None;
    }
    let second = b[k + 1];
    if second == QUOTE {
        Some((QUOTE, 2))
    } else if second == BACKSLASH {
        Some((BACKSLASH, 2))
    } else if second == 'b' as u8 {
        Some((8, 2))
    } else if second == 't' as u8 {
        Some((9, 2))
    } else if second == 'n' as u8 {
        Some((10, 2))
    } else if second == 'f' as u8 {
        Some((12, 2))
    } else if second == 'r' as u8 {
        Some((13, 2))
    } else if second == 'u' as u8 {
        if b.len() - k <= 5 || b[k + 2] != '0' as u8 || b[k + 3] != '0' as u8 {
            return None;
        }
        let high: u8 = if b[k + 4] == '0' as u8 {
            0
        } else if b[k + 4] == '1' as u8 {
            1
        } else {
            return None;
        };
        match hex_value(b[k + 5]) {
            Some(low) => {
                proof {
                    if h {
                        assert(c < 32);
                        assert(c / 16 == high);
                        assert(c % 16 < 16);
                        assert(low == c % 16);
                        assert(c == high * 16 + low) by (nonlinear_arith)
                            requires
                                c / 16 == high,
                                c % 16 == low,
                        ;
                    }
                }
                Some((high * 16 + low, 6))
            },
            None => None,
        }
    } else {
        None
    }
}

/// Reads the escaped contents of a string literal from `start` up to (not
/// including) its closing quote; where `b` holds the escape of `s` there,
/// followed by a quote, it reads `s`.
fn parse_string(b: &[u8], start: usize, Ghost(s): Ghost<Seq<u8>>) -> (r: Option<(Vec<u8>, usize)>)
    requires
        start <= b@.len(),
    ensures
        r matches Some((_, end)) ==> start <= end < b@.len(),
        holds_at(b@, start as int, escaped(s)) && start + escaped(s).len() < b@.len() && b@[start
            + escaped(s).len()] == QUOTE ==> (r matches Some((v, end)) && v@ == s && end == start
            + escaped(s).len()),
{
    let ghost end = start + escaped(s).len();
    let ghost h = holds_at(b@, start as int, escaped(s)) && end < b@.len() && b@[end] == QUOTE;
    let mut out: Vec<u8> = Vec::new();
    let mut pos = start;
    assert(s.skip(0) =~= s);
    assert(s.take(0) =~= out@);
    while pos < b.len()
        invariant
            start <= pos <= b@.len(),
            end == start + escaped(s).len(),
            h == (holds_at(b@, start as int, escaped(s)) && end < b@.len() && b@[end] == QUOTE),
            h ==> out@.len() <= s.len() && out@ == s.take(out@.len() as int) && pos <= end && b@.subrange(
                pos as int,
                end,
            ) == escaped(s.skip(out@.len() as int)),
        decreases b@.len() - pos,
    {
        let ghost i = out@.len() as int;
        let ghost seg = b@.subrange(pos as int, end);
        proof {
            if h && i < s.len() {
                let e = escape_byte(s[i]);
                lemma_escaped_skip(s, i);
                lemma_escape_byte_shape(s[i]);
                assert(seg == e + escaped(s.skip(i + 1)));
                assert(b@[pos as int] == seg[0]);
                assert(seg.subrange(0, e.len() as int) =~= e);
                assert(b@.subrange(pos as int, pos + e.len()) =~= seg.subrange(0, e.len() as int));
                assert(seg.skip(e.len() as int) =~= escaped(s.skip(i + 1)));
            }
            if h && i == s.len() {
                assert(s.skip(i) =~= Seq::<u8>::empty());
            }
        }
        if b[pos] == QUOTE {
            proof {
                if h {
                    assert(s.take(i) =~= s);
                }
            }
            return Some((out, pos));
        }
        let ghost c: u8 = if i < s.len() {
            s[i]
        } else {
            0
        };
        match decode_unit(b, pos, Ghost(c)) {
            None => {
                return None;
            },
            Some((byte, n)) => {
                proof {
                    if h {
                        assert(s.take(i).push(c) =~= s.take(i + 1));
                        assert(b@.subrange(pos + n, end) =~= seg.skip(n as int));
                    }
                }
                out.push(byte);
                pos = pos + n;
            },
        }
    }
    None
}

/// Reads a text field: its escaped UTF-8 bytes up to the closing quote.
fn parse_field(b: &[u8], start: usize, Ghost(f): Ghost<Seq<char>>) -> (r: Option<(String, usize)>)
    requires
        start <= b@.len(),
    ensures
        r matches Some((_, end)) ==> start <= end < b@.len(),
        holds_at(b@, start as int, field_bytes(f)) && start + field_bytes(f).len() < b@.len() && b@[start
            + field_bytes(f).len()] == QUOTE ==> (r matches Some((v, end)) && v@ == f && end == start
            + field_bytes(f).len()),
{
    match parse_string(b, start, Ghost(encode_utf8(f))) {
        None => None,
        Some((bytes, end)) => {
            let ghost raw = bytes@;
            match string_from_utf8(bytes) {
                None => None,
                Some(text) => {
                    proof {
                        if raw == encode_utf8(f) {
                            assert(vstd::utf8::decode_utf8(encode_utf8(text@)) == text@);
                        }
                    }
                    Some((text, end))
                },
            }
        },
    }
}

proof fn lemma_piece(b: Seq<u8>, at: int, whole: Seq<u8>, offset: int, piece: Seq<u8>)
    requires
        holds_at(b, at, whole),
        holds_at(whole, offset, piece),
    ensures
        holds_at(b, at + offset, piece),
{
    assert(b.subrange(at + offset, at + offset + piece.len()) =~= whole.subrange(offset, offset + piece.len()));
}

/// Reads one entry object; where `b` holds the bytes of `e` at `start`, it
/// reads `e` and ends after them.
fn parse_entry(b: &[u8], start: usize, Ghost(e): Ghost<EntryView>) -> (r: Option<(Entry, usize)>)
    requires
        start <= b@.len(),
    ensures
        r matches Some((_, end)) ==> start < end <= b@.len(),
        holds_at(b@, start as int, entry_bytes(e)) ==> (r matches Some((v, end)) && v@ == e && end == start
            + entry_bytes(e).len()),
{
    let blen = b.len();
    let ghost eb = entry_bytes(e);
    let ghost h = holds_at(b@, start as int, eb);
    let ghost nk = name_key();
    let ghost f1 = field_bytes(e.name);
    let ghost uk = username_key();
    let ghost f2 = field_bytes(e.username);
    let ghost pk = password_key();
    let ghost f3 = field_bytes(e.password);
    let ghost ee = entry_end();
    let ghost o1 = nk.len() as int;
    let ghost o2 = o1 + f1.len();
    let ghost o3 = o2 + uk.len();
    let ghost o4 = o3 + f2.len();
    let ghost o5 = o4 + pk.len();
    let ghost o6 = o5 + f3.len();
    proof {
        lemma_token_facts();
        if h {
            assert(eb.subrange(0, o1) =~= nk);
            assert(eb.subrange(o1, o2) =~= f1);
            assert(eb.subrange(o2, o3) =~= uk);
            assert(eb.subrange(o3, o4) =~= f2);
            assert(eb.subrange(o4, o5) =~= pk);
            assert(eb.subrange(o5, o6) =~= f3);
            assert(eb.subrange(o6, eb.len() as int) =~= ee);
            lemma_piece(b@, start as int, eb, 0, nk);
            lemma_piece(b@, start as int, eb, o1, f1);
            lemma_piece(b@, start as int, eb, o2, uk);
            lemma_piece(b@, start as int, eb, o3, f2);
            lemma_piece(b@, start as int, eb, o4, pk);
            lemma_piece(b@, start as int, eb, o5, f3);
            lemma_piece(b@, start as int, eb, o6, ee);
            assert(b@[start + o2] == b@.subrange(start + o2, start + o3)[0]);
            assert(b@[start + o4] == b@.subrange(start + o4, start + o5)[0]);
            assert(b@[start + o6] == b@.subrange(start + o6, start + eb.len())[0]);
        }
    }
    let nk_exec = name_token();
    if !expect_token(b, start, &nk_exec) {
        return None;
    }
    let (name, at_username) = match parse_field(b, start + nk_exec.len(), Ghost(e.name)) {
        Some(x) => x,
        None => {
            return None;
        },
    };
    let uk_exec = username_token();
    if !expect_token(b, at_username, &uk_exec) {
        return None;
    }
    let (username, at_password) = match parse_field(b, at_username + uk_exec.len(), Ghost(e.username)) {
        Some(x) => x,
        None => {
            return None;
        },
    };
    let pk_exec = password_token();
    if !expect_token(b, at_password, &pk_exec) {
        return None;
    }
    let (password, at_end) = match parse_field(b, at_password + pk_exec.len(), Ghost(e.password)) {
        Some(x) => x,
        None => {
            return None;
        },
    };
    let ee_exec = entry_end_token();
    if !expect_token(b, at_end, &ee_exec) {
        return None;
    }
    Some((Entry { name, username, password }, at_end + ee_exec.len()))
}

proof fn lemma_list_split(after: Seq<u8>, w: Seq<EntryView>)
    requires
        after == entry_list(w) + payload_tail(),
    ensures
        after.len() > 0,
        w.len() == 0 ==> after[0] == 93,
        w.len() > 0 ==> after[0] != 93 && holds_at(after, 0, entry_bytes(w[0])) && after.skip(
            entry_bytes(w[0]).len() as int,
        ) == later_entries(w.skip(1)) + payload_tail(),
{
    lemma_token_facts();
    if w.len() == 0 {
        assert(after =~= payload_tail());
    } else {
        let eb = entry_bytes(w[0]);
        assert(w.drop_first() =~= w.skip(1));
        assert(after =~= eb + (later_entries(w.skip(1)) + payload_tail()));
        assert(after[0] == eb[0]);
        assert(eb[0] == name_key()[0]);
        assert(after.subrange(0, eb.len() as int) =~= eb);
        assert(after.skip(eb.len() as int) =~= later_entries(w.skip(1)) + payload_tail());
    }
}

proof fn lemma_later_split(rest: Seq<u8>, w: Seq<EntryView>, i: int)
    requires
        0 <= i <= w.len(),
        rest == later_entries(w.skip(i)) + payload_tail(),
    ensures
        rest.len() > 0,
        i == w.len() ==> rest[0] != 44,
        i < w.len() ==> rest[0] == 44 && holds_at(rest, 1, entry_bytes(w[i])) && rest.skip(
            1 + entry_bytes(w[i]).len() as int,
        ) == later_entries(w.skip(i + 1)) + payload_tail(),
{
    lemma_token_facts();
    if i == w.len() {
        assert(w.skip(i) =~= Seq::<EntryView>::empty());
        assert(rest =~= payload_tail());
    } else {
        let eb = entry_bytes(w[i]);
        assert(w.skip(i).drop_first() =~= w.skip(i + 1));
        assert(rest =~= separator() + (eb + (later_entries(w.skip(i + 1)) + payload_tail())));
        assert(rest[0] == separator()[0]);
        assert(rest.subrange(1, 1 + eb.len() as int) =~= eb);
        assert(rest.skip(1 + eb.len() as int) =~= later_entries(w.skip(i + 1)) + payload_tail());
    }
}

proof fn lemma_views_push(es: Seq<Entry>, e: Entry, w: Seq<EntryView>, i: int)
    requires
        0 <= i < w.len(),
        views(es) == w.take(i),
        e@ == w[i],
    ensures
        views(es.push(e)) == w.take(i + 1),
{
    let v = views(es.push(e));
    assert(views(es).len() == i);
    assert forall|j: int| 0 <= j < i + 1 implies v[j] == w.take(i + 1)[j] by {
        if j < i {
            assert(es.push(e)[j] == es[j]);
            assert(views(es)[j] == w.take(i)[j]);
        } else {
            assert(es.push(e)[j] == e);
        }
    }
    assert(v =~= w.take(i + 1));
}

/// Reads the entry list of a payload; where `b` is the payload of `w`, it
/// reads `w`.
fn parse_entries(b: &[u8], Ghost(w): Ghost<Seq<EntryView>>) -> (r: Option<Vec<Entry>>)
    ensures
        payload_bytes(w) == b@ ==> (r matches Some(v) && views(v@) == w),
{
    let blen = b.len();
    let ghost h = payload_bytes(w) == b@;
    proof {
        lemma_token_facts();
        if h {
            assert(b@.subrange(0, 12) =~= payload_head());
        }
    }
    let head = head_token();
    if !expect_token(b, 0, &head) {
        return None;
    }
    let mut pos: usize = head.len();
    proof {
        lemma_token_facts();
        if h {
            assert(b@.subrange(pos as int, blen as int) =~= entry_list(w) + payload_tail());
            lemma_list_split(b@.subrange(pos as int, blen as int), w);
            assert(b@[pos as int] == b@.subrange(pos as int, blen as int)[0]);
        }
    }
    let mut out: Vec<Entry> = Vec::new();
    if pos < blen && b[pos] == 93 {
        proof {
            if h {
                assert(views(out@) =~= w);
            }
        }
        return Some(out);
    }
    let ghost w0 = if w.len() > 0 {
        w[0]
    } else {
        EntryView { name: Seq::empty(), username: Seq::empty(), password: Seq::empty() }
    };
    proof {
        if h {
            lemma_piece(b@, pos as int, b@.subrange(pos as int, blen as int), 0, entry_bytes(w0));
        }
    }
    let (first, p) = match parse_entry(b, pos, Ghost(w0)) {
        Some(x) => x,
        None => {
            return None;
        },
    };
    proof {
        if h {
            assert(views(out@) =~= w.take(0));
            lemma_views_push(out@, first, w, 0);
            assert(b@.subrange(p as int, blen as int) =~= b@.subrange(pos as int, blen as int).skip(
                entry_bytes(w0).len() as int,
            ));
        }
    }
    out.push(first);
    pos = p;
    while pos < blen && b[pos] == 44
        invariant
            pos <= blen,
            blen == b@.len(),
            h == (payload_bytes(w) == b@),
            h ==> 1 <= out@.len() <= w.len() && views(out@) == w.take(out@.len() as int) && b@.subrange(
                pos as int,
                blen as int,
            ) == later_entries(w.skip(out@.len() as int)) + payload_tail(),
        decreases blen - pos,
    {
        let ghost i = out@.len() as int;
        let ghost rest = b@.subrange(pos as int, blen as int);
        proof {
            if h {
                lemma_later_split(rest, w, i);
                assert(b@[pos as int] == rest[0]);
                if i < w.len() {
                    lemma_piece(b@, pos as int, rest, 1, entry_bytes(w[i]));
                }
            }
        }
        let ghost wi = if i < w.len() {
            w[i]
        } else {
            w0
        };
        let (next, p) = match parse_entry(b, pos + 1, Ghost(wi)) {
            Some(x) => x,
            None => {
                return None;
            },
        };
        proof {
            if h {
                lemma_views_push(out@, next, w, i);
                assert(b@.subrange(p as int, blen as int) =~= rest.skip(1 + entry_bytes(w[i]).len() as int));
            }
        }
        out.push(next);
        pos = p;
    }
    proof {
        if h {
            let i = out@.len() as int;
            let rest = b@.subrange(pos as int, blen as int);
            lemma_later_split(rest, w, i);
            if pos < blen {
                assert(b@[pos as int] == rest[0]);
            }
            assert(w.take(w.len() as int) =~= w);
        }
    }
    Some(out)
}

/// Parses a plaintext payload back into its entries; `None` exactly where
/// `bytes` is not the payload of any entry list.
pub fn decode_payload(bytes: &[u8]) -> (r: Option<Vec<Entry>>)
    ensures
        match r {
            Some(v) => payload_entries(bytes@) == Some(views(v@)),
            None => payload_entries(bytes@) is None,
        },
{
    let ghost w = choose|es: Seq<EntryView>| #[trigger] payload_bytes(es) == bytes@;
    match parse_entries(bytes, Ghost(w)) {
        None => None,
        Some(v) => {
            let encoded = encode_payload(&v);
            if bytes_equal(encoded.as_slice(), bytes) {
                proof {
                    lemma_payload_round_trip(views(v@));
                }
                Some(v)
            } else {
                None
            }
        },
    }
}

} // verus!
