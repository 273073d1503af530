use hiho::PasswordOptions;

#[test]
fn default_options() {
    let o = PasswordOptions::default();
    assert_eq!(o.length, 16);
    assert!(o.use_uppercase && o.use_lowercase && o.use_numbers && o.use_symbols);
    assert!(!o.exclude_ambiguous);
    assert_eq!(o.charset().len(), 26 + 26 + 10 + 26);
}

#[test]
fn charset_follows_the_switches() {
    let o = PasswordOptions {
        length: 8,
        use_uppercase: false,
        use_lowercase: false,
        use_numbers: true,
        use_symbols: false,
        exclude_ambiguous: true,
    };
    assert_eq!(o.charset().into_iter().collect::<String>(), "123456789");
    let o = PasswordOptions { use_uppercase: true, use_numbers: false, ..o };
    let set: String = o.charset().into_iter().collect();
    assert_eq!(set, "ABCDEFGHJKLMNPQRSTUVWXYZ");
}

#[test]
fn password_from_draws_picks_by_modulo() {
    let o = PasswordOptions {
        length: 4,
        use_uppercase: false,
        use_lowercase: false,
        use_numbers: true,
        use_symbols: false,
        exclude_ambiguous: false,
    };
    let pw: String = o.password_from_draws(&vec![0, 1, 12, 99]).into_iter().collect();
    assert_eq!(pw, "0129");
    let none = PasswordOptions { use_numbers: false, ..o };
    assert!(none.password_from_draws(&vec![1, 2, 3]).is_empty());
}
