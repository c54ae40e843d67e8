use h2sr::matchers::{AcMatcher, RegexMatcher};
use h2sr::old_domains;
use h2sr::{Domains, Error, NewDomains};

const PROXY: &[&str] = &["google.com", "google.com", "testgoogle.com"];
const TEST_CASES: &[(&[u8], bool)] = &[
    (b"google.com", true),
    (b"testgoogle.com", true),
    (b"baidu.com", false),
    (b"microsoftgoogle.com", false),
    (b"test.google.com", true),
];

#[test]
fn ac_matcher_works() {
    let matcher = AcMatcher::new(PROXY).unwrap();

    for (domain, expect) in TEST_CASES.iter().copied() {
        assert_eq!(expect, matcher.mat(domain), "{}", String::from_utf8_lossy(domain))
    }
}

#[test]
fn regex_matcher_works() {
    let matcher = RegexMatcher::new(PROXY).unwrap();

    for (domain, expect) in TEST_CASES.iter().copied() {
        assert_eq!(expect, matcher.mat(domain), "{}", String::from_utf8_lossy(domain))
    }
}

#[test]
fn new_matcher_works() {
    let matcher = NewDomains::new(PROXY).unwrap();

    for (domain, expect) in TEST_CASES.iter().copied() {
        assert_eq!(expect, matcher.mat(domain), "{}", String::from_utf8_lossy(domain))
    }
}

fn single(pattern: &str) -> Domains {
    Domains::new(&[pattern]).unwrap()
}

#[test]
fn exact_host_matches() {
    assert!(single("google.com").contain_host(b"google.com"));
}

#[test]
fn subdomain_matches() {
    assert!(single("google.com").contain_host(b"test.google.com"));
}

#[test]
fn glued_prefix_does_not_match() {
    assert!(!single("google.com").contain_host(b"testgoogle.com"));
    assert!(!single("google.com").contain_host(b"microsoftgoogle.com"));
}

#[test]
fn longer_pattern_beside_shorter_matches() {
    let d = Domains::new(&["google.com", "testgoogle.com"]).unwrap();
    assert!(d.contain_host(b"testgoogle.com"));
    assert!(d.contain_host(b"google.com"));
    assert!(!d.contain_host(b"xtestgoogle.com"));
}

#[test]
fn other_domain_does_not_match() {
    assert!(!single("google.com").contain_host(b"baidu.com"));
}

#[test]
fn deep_pattern() {
    assert!(single("a.b.c").contain_host(b"x.a.b.c"));
    assert!(!single("a.b.c").contain_host(b"ab.c"));
    assert!(!single("a.b.c").contain_host(b"b.c"));
}

#[test]
fn case_is_folded() {
    let d = single("Google.COM");
    assert!(d.contain_host(b"WWW.GOOGLE.COM"));
    assert!(d.contain_host(b"www.google.com"));
    assert!(d.contain_host(b"wWw.gOOgle.cOm"));
}

#[test]
fn dot_prefix_always_matches() {
    let d = Domains::new(&["example.org", "a-b.net"]).unwrap();
    assert!(d.contain_host(b"x-1.example.org"));
    assert!(d.contain_host(b"q.r.a-b.net"));
    assert!(!d.contain_host(b"xa-b.net"));
}

#[test]
fn invalid_byte_in_query() {
    let d = single("google.com");
    assert!(!d.contain_host(b"goo_gle.com"));
    assert!(d.contain_host(b"a_b.google.com"));
}

#[test]
fn empty_query() {
    assert!(!single("google.com").contain_host(b""));
    let empty = Domains::new(&[]).unwrap();
    assert!(!empty.contain_host(b""));
    assert!(!empty.contain_host(b"google.com"));
}

#[test]
fn empty_pattern_matches_hosts_ending_in_dot() {
    let d = single("");
    assert!(d.contain_host(b""));
    assert!(d.contain_host(b"com."));
    assert!(!d.contain_host(b"com"));
}

#[test]
fn adding_twice_changes_nothing() {
    let once = Domains::new(&["google.com"]).unwrap();
    let twice = Domains::new(&["google.com", "google.com"]).unwrap();
    for h in [&b"google.com"[..], b"a.google.com", b"agoogle.com", b"com"] {
        assert_eq!(once.contain_host(h), twice.contain_host(h));
    }
}

#[test]
fn subsumed_pattern_changes_nothing() {
    let base = Domains::new(&["google.com"]).unwrap();
    let more = Domains::new(&["google.com", "mail.google.com"]).unwrap();
    let rev = Domains::new(&["mail.google.com", "google.com"]).unwrap();
    for h in [&b"google.com"[..], b"mail.google.com", b"x.mail.google.com", b"ail.google.com", b"oogle.com"] {
        assert_eq!(base.contain_host(h), more.contain_host(h));
        assert_eq!(base.contain_host(h), rev.contain_host(h));
    }
}

#[test]
fn shorter_pattern_after_longer_one() {
    let mut d = Domains::default();
    d.add_host(b"mail.google.com").unwrap();
    assert!(!d.contain_host(b"google.com"));
    d.add_host(b"google.com").unwrap();
    d.build();
    assert!(d.contain_host(b"google.com"));
    assert!(d.contain_host(b"mail.google.com"));
    assert!(d.contain_host(b"x.google.com"));
}

#[test]
fn unexpected_character() {
    let mut d = Domains::default();
    match d.add_host(b"bad_host.c*m") {
        Err(Error::UnexpectedCharacter(c)) => assert_eq!(c, b'*'),
        _ => panic!("expected an error"),
    }
    match Domains::new(&["ok.com", "a b"]) {
        Err(Error::UnexpectedCharacter(c)) => assert_eq!(c, b' '),
        _ => panic!("expected an error"),
    }
}

#[test]
fn from_owned_strings() {
    let v = vec!["google.com".to_string(), "baidu.com".to_string()];
    let d = Domains::from_strs(&v).unwrap();
    assert!(d.contain_host(b"www.baidu.com"));
    assert!(!d.contain_host(b"www.bing.com"));
}

#[test]
fn plain_suffix_matcher() {
    let d = old_domains::Domains::new(PROXY).unwrap();
    assert!(d.mat(b"google.com"));
    assert!(d.mat(b"testgoogle.com"));
    assert!(d.mat(b"microsoftgoogle.com"));
    assert!(d.mat(b"test.google.com"));
    assert!(!d.mat(b"baidu.com"));
    assert!(!d.mat(b"oogle.com"));
}

#[test]
fn plain_suffix_shorter_wins() {
    let d = old_domains::Domains::new(&["mail.google.com", "le.com"]).unwrap();
    assert!(d.mat(b"mail.google.com"));
    assert!(d.mat(b"google.com"));
    assert!(!d.mat(b"e.com"));
    match old_domains::Domains::new(&["g/com"]) {
        Err(Error::UnexpectedCharacter(c)) => assert_eq!(c, b'/'),
        _ => panic!("expected an error"),
    }
}

#[test]
fn baselines_agree_with_trie() {
    let patterns: &[&str] = &["a.b.c", "example.org", "x-y.net", "google.com"];
    let trie = Domains::new(patterns).unwrap();
    let ac = AcMatcher::new(patterns).unwrap();
    let re = RegexMatcher::new(patterns).unwrap();
    let hosts: &[&[u8]] = &[
        b"x.a.b.c", b"ab.c", b"a.b.c", b"example.org", b"www.example.org", b"myexample.org",
        b"x-y.net", b"zx-y.net", b"q.x-y.net", b"google.com", b"mail.google.com", b"baidu.com",
    ];
    for h in hosts {
        let expect = trie.contain_host(h);
        assert_eq!(expect, ac.mat(h), "{}", String::from_utf8_lossy(h));
        assert_eq!(expect, re.mat(h), "{}", String::from_utf8_lossy(h));
    }
}

#[test]
fn ac_matcher_rejects_empty_pattern() {
    assert!(AcMatcher::new(&["google.com", ""]).is_none());
}

#[test]
fn ac_matcher_is_case_sensitive() {
    let ac = AcMatcher::new(&["google.com"]).unwrap();
    assert!(!ac.mat(b"GOOGLE.COM"));
    assert!(ac.mat(b"www.google.com"));
}

#[test]
fn regex_matcher_needs_a_pattern() {
    assert!(RegexMatcher::new(&[]).is_none());
}

#[test]
fn error_messages() {
    assert_eq!(Error::UnexpectedCharacter(b'*').message(), "unknown character: ''*''");
    assert_eq!(Error::IllegalIpNet("x/99".to_string()).message(), "illegal ipnet: 'x/99'");
    assert_eq!(Error::TooManyDomains.message(), "too many domains");
    assert!(Error::ConfigInconsistency.message().starts_with("exactly one of"));
}
