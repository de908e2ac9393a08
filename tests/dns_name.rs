use std::str::FromStr;

use dns_name::{Error, List};
use trust_dns_proto::rr::domain::Name;

const RULES: &str = "com,uk.com,nu,uk,co.uk,*.uk,!metro.uk,saarland,museum,*.ck,!www.ck,net,org";

fn make_list() -> List {
    List::build(RULES).unwrap()
}

#[test]
fn dnsname() {
    let list = make_list();

    let domain = list.parse_dns_name("www.example.com").unwrap();
    assert_eq!(domain.name(), "www.example.com");
    assert_eq!(domain.rname(), "moc.elpmaxe.www");
    assert_eq!(domain.root(), Some("example.com"));
    assert_eq!(domain.suffix(), Some("com"));
    assert_eq!(domain.registrable(), Some("example"));

    // 2-level TLD
    let domain = list.parse_dns_name("wWw.BlUeCaTnEtWoRkS.Uk.CoM.").unwrap();
    assert_eq!(domain.name(), "www.bluecatnetworks.uk.com.");
    assert_eq!(domain.rname(), ".moc.ku.skrowtentaceulb.www");
    assert_eq!(domain.root(), Some("bluecatnetworks.uk.com."));
    assert_eq!(domain.suffix(), Some("uk.com."));
    assert_eq!(domain.registrable(), Some("bluecatnetworks"));

    // the root name
    let domain = list.parse_dns_name(".").unwrap();
    assert_eq!(domain.name(), ".");
    assert_eq!(domain.rname(), ".");
    assert_eq!(domain.root(), None);
    assert_eq!(domain.suffix(), None);
    assert_eq!(domain.registrable(), None);
}

#[test]
fn trustdns() {
    let list = make_list();

    let domain = list.from_trustdns_name(&Name::from_str("a.b.c").unwrap()).unwrap();
    assert_eq!(domain.name(), "a.b.c");
    assert_eq!(domain.rname(), "c.b.a");
    assert_eq!(domain.root(), Some("b.c"));
    assert_eq!(domain.suffix(), Some("c"));

    // conversion to ascii
    let domain = list.from_trustdns_name(&Name::from_str("a.\u{2665}").unwrap()).unwrap();
    assert_eq!(domain.name(), "a.xn--g6h");
    assert_eq!(domain.root(), Some("a.xn--g6h"));
    assert_eq!(domain.suffix(), Some("xn--g6h"));
}

#[test]
fn allow_qualified_domain_names() {
    let list = make_list();
    assert!(list.parse_domain("example.com.").is_ok());
}

#[test]
fn allow_single_label_trailing_dot() {
    let list = make_list();
    assert!(list.parse_domain("com.").is_ok());
}

#[test]
fn have_suffix_single_label_domains() {
    let list = make_list();
    let domains = vec![
        // real TLDs
        "com",
        "saarland",
        "museum.",
        // non-existant TLDs
        "localhost",
        "madeup",
        "with-dot.",
    ];
    for domain in domains {
        let res = list.parse_domain(domain).unwrap();
        assert_eq!(res.suffix(), Some(domain));
        assert!(res.root().is_none());
    }
}

#[test]
fn no_empty_labels() {
    let list = make_list();
    assert!(list.parse_domain("exa..mple.com").is_err());
}

#[test]
fn no_spaces() {
    let list = make_list();
    assert!(list.parse_domain("exa mple.com").is_err());
}

#[test]
fn no_fwd_slash() {
    let list = make_list();
    assert!(list.parse_domain("exa/mple.com").is_ok());
}

#[test]
fn no_ipv4() {
    let list = make_list();
    assert!(list.parse_domain("127.38.53.247").is_ok());
}

#[test]
fn no_ipv6() {
    let list = make_list();
    assert!(list
        .parse_domain("fd79:cdcb:38cc:9dd:f686:e06d:32f3:c123")
        .is_ok());
}

#[test]
fn label_max_127() {
    let list = make_list();
    let mut too_many_labels_domain = String::from("a");
    for _ in 0..126 {
        too_many_labels_domain.push_str(".a");
    }
    too_many_labels_domain.push_str(".com");
    assert!(list.parse_domain(&too_many_labels_domain).is_ok());
}

#[test]
fn choose_longest_valid() {
    let list = make_list();
    let domain = list.parse_domain("foo.builder.nu").unwrap();
    assert_eq!(Some("nu"), domain.suffix());
    assert_eq!(Some("builder.nu"), domain.root());

    let domain = list.parse_domain("foo.fbsbx.com").unwrap();
    assert_eq!(Some("com"), domain.suffix());
    assert_eq!(Some("fbsbx.com"), domain.root());
}

#[test]
fn allow_num_only_labels() {
    let list = make_list();
    assert!(list.parse_domain("127.com").is_ok());
}

#[test]
fn rname_reverses_name() {
    let list = make_list();
    let domain = list.parse_dns_name("a.bc.def.").unwrap();
    assert_eq!(domain.rname(), ".fed.cb.a");
    let back: String = domain.rname().chars().rev().collect();
    assert_eq!(back, domain.name());
}

#[test]
fn root_is_registrable_dot_suffix() {
    let list = make_list();
    let domain = list.parse_dns_name("x.y.co.uk").unwrap();
    assert_eq!(domain.suffix(), Some("co.uk"));
    assert_eq!(domain.registrable(), Some("y"));
    assert_eq!(domain.root(), Some("y.co.uk"));
    let joined = format!("{}.{}", domain.registrable().unwrap(), domain.suffix().unwrap());
    assert_eq!(Some(joined.as_str()), domain.root());
}

#[test]
fn case_does_not_matter() {
    let list = make_list();
    let upper = list.parse_dns_name("WWW.Example.COM").unwrap();
    let lower = list.parse_dns_name("www.example.com").unwrap();
    assert_eq!(upper.name(), "www.example.com");
    assert_eq!(upper.suffix(), lower.suffix());
    assert_eq!(upper.root(), lower.root());
    assert_eq!(upper.registrable(), lower.registrable());
    assert_eq!(upper, lower);
}

#[test]
fn root_name_on_empty_list() {
    let list = List::empty();
    let domain = list.parse_dns_name(".").unwrap();
    assert_eq!(domain.suffix(), None);
    assert_eq!(domain.root(), None);
    assert_eq!(domain.registrable(), None);
}

#[test]
fn empty_list_matches_nothing() {
    let list = List::empty();
    let domain = list.parse_dns_name("www.example.com").unwrap();
    assert_eq!(domain.name(), "www.example.com");
    assert_eq!(domain.suffix(), None);
    assert_eq!(domain.root(), None);
}

#[test]
fn unknown_top_label_falls_back() {
    let list = make_list();
    let domain = list.parse_dns_name("foo.madeup").unwrap();
    assert_eq!(domain.suffix(), Some("madeup"));
    assert_eq!(domain.root(), Some("foo.madeup"));
    assert_eq!(domain.registrable(), Some("foo"));
    let domain = list.parse_dns_name("madeup").unwrap();
    assert_eq!(domain.suffix(), Some("madeup"));
    assert_eq!(domain.root(), None);
}

#[test]
fn explicit_longer_rule_wins() {
    let list = List::build("nu,builder.nu,com,fbsbx.com").unwrap();
    let domain = list.parse_domain("foo.builder.nu").unwrap();
    assert_eq!(domain.suffix(), Some("builder.nu"));
    assert_eq!(domain.root(), Some("foo.builder.nu"));
    let domain = list.parse_domain("foo.fbsbx.com").unwrap();
    assert_eq!(domain.suffix(), Some("fbsbx.com"));
    assert_eq!(domain.root(), Some("foo.fbsbx.com"));
}

#[test]
fn exception_rule_carves_out() {
    let list = List::build("*.ck,!www.ck").unwrap();
    let domain = list.parse_domain("www.ck").unwrap();
    assert_eq!(domain.suffix(), Some("ck"));
    assert_eq!(domain.root(), Some("www.ck"));
    assert_eq!(domain.registrable(), Some("www"));
    let domain = list.parse_domain("a.other.ck").unwrap();
    assert_eq!(domain.suffix(), Some("other.ck"));
    assert_eq!(domain.root(), Some("a.other.ck"));
}

#[test]
fn uk_rules() {
    let list = List::build("uk,co.uk,*.uk,!metro.uk,uk.com,com").unwrap();
    let domain = list.parse_domain("www.bluecatnetworks.uk.com").unwrap();
    assert_eq!(domain.suffix(), Some("uk.com"));
    assert_eq!(domain.root(), Some("bluecatnetworks.uk.com"));
    assert_eq!(domain.registrable(), Some("bluecatnetworks"));
    let domain = list.parse_domain("www.metro.uk").unwrap();
    assert_eq!(domain.suffix(), Some("uk"));
    assert_eq!(domain.root(), Some("metro.uk"));
    let domain = list.parse_domain("a.b.foo.uk").unwrap();
    assert_eq!(domain.suffix(), Some("foo.uk"));
    assert_eq!(domain.root(), Some("b.foo.uk"));
}

#[test]
fn invalid_inputs() {
    let list = make_list();
    assert_eq!(list.parse_domain("exa..mple.com"), Err(Error::InvalidInput));
    assert_eq!(list.parse_domain("exa mple.com"), Err(Error::InvalidInput));
    assert_eq!(list.parse_domain(".com"), Err(Error::InvalidInput));
    assert_eq!(list.parse_domain(".."), Err(Error::InvalidInput));
    assert_eq!(list.parse_domain(""), Err(Error::InvalidInput));
    assert_eq!(list.parse_domain("com.."), Err(Error::InvalidInput));
    assert_eq!(list.parse_domain("exa\tmple.com"), Err(Error::InvalidInput));
}

#[test]
fn classify_twice_same_result() {
    let list = make_list();
    let a = list.parse_domain("www.bluecatnetworks.uk.com.");
    let b = list.parse_domain("www.bluecatnetworks.uk.com.");
    assert_eq!(a, b);
}

#[test]
fn compile_errors() {
    assert!(matches!(List::build(""), Err(Error::EmptyList)));
    assert!(matches!(List::build("com,,net"), Err(Error::InvalidRule)));
    assert!(matches!(List::build("a..b"), Err(Error::InvalidRule)));
    assert!(matches!(List::build("!"), Err(Error::InvalidRule)));
    assert!(matches!(List::build("com,"), Err(Error::InvalidRule)));
    assert!(List::build("com").is_ok());
}

#[test]
fn only_ascii_letters_are_folded() {
    let list = make_list();
    let domain = list.parse_dns_name("\u{dc}n\u{ef}.\u{c7}OM").unwrap();
    assert_eq!(domain.name(), "\u{dc}n\u{ef}.\u{c7}om");
    assert_eq!(domain.rname(), "mo\u{c7}.\u{ef}n\u{dc}");
    assert_eq!(domain.suffix(), Some("\u{c7}om"));
    assert_eq!(domain.root(), Some("\u{dc}n\u{ef}.\u{c7}om"));
    assert_eq!(domain.registrable(), Some("\u{dc}n\u{ef}"));
}

#[test]
fn list_from_str() {
    let list: List = "com,uk.com".parse().unwrap();
    let domain = list.parse_dns_name("a.b.uk.com").unwrap();
    assert_eq!(domain.suffix(), Some("uk.com"));
    assert!(matches!("".parse::<List>(), Err(Error::EmptyList)));
}

#[test]
fn display_form() {
    let list = make_list();
    let domain = list.parse_dns_name("WwW.Example.COM.").unwrap();
    assert_eq!(domain.to_display(), "www.example.com");
    let domain = list.parse_dns_name("\u{dc}.COM.").unwrap();
    assert_eq!(domain.name(), "\u{dc}.com.");
    assert_eq!(domain.to_display(), "\u{fc}.com");
}

#[test]
fn unicode_white_space_rejected() {
    let list = make_list();
    assert_eq!(list.parse_domain("a\u{b}b.com"), Err(Error::InvalidInput));
    assert_eq!(list.parse_domain("a\u{a0}b.com"), Err(Error::InvalidInput));
    assert_eq!(list.parse_domain("a\u{3000}b.com"), Err(Error::InvalidInput));
    assert!(list.parse_domain("a\u{200b}b.com").is_ok());
}

#[test]
fn rule_labels_are_folded() {
    let list = List::build("CO.UK,UK").unwrap();
    let domain = list.parse_domain("foo.co.uk").unwrap();
    assert_eq!(domain.suffix(), Some("co.uk"));
    assert_eq!(domain.root(), Some("foo.co.uk"));
}

#[test]
fn interior_node_is_not_a_rule() {
    let list = List::build("com,apps.fbsbx.com").unwrap();
    let domain = list.parse_domain("foo.fbsbx.com").unwrap();
    assert_eq!(domain.suffix(), Some("com"));
    assert_eq!(domain.root(), Some("fbsbx.com"));
}
