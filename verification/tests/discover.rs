use ost_mcp::discover::{
    decode, from_directory, from_profiles, is_ost_or_pst, is_store, primary, stores, walk, Candidate,
    DirEntry, Found, OfficeVersion, ProfileKey, ProfileRecord, RegValue,
};

#[test]
fn recognises_store_extensions() {
    assert!(is_store(r"C:\x\user@example.com.ost"));
    assert!(is_store("Archive.PST"));
    // The Groups store sits next to the OST and is not one.
    assert!(!is_store(r"C:\x\user@example.com.nst"));
    assert!(!is_store("notes.txt"));
}

#[test]
fn short_names_are_no_stores() {
    assert!(is_store(".ost"));
    assert!(!is_store("ost"));
    assert!(!is_store(""));
    assert!(!is_store("x.ost "));
}

#[test]
fn extensions_are_compared_without_case() {
    assert!(is_ost_or_pst(Some("ost")));
    assert!(is_ost_or_pst(Some("PsT")));
    assert!(!is_ost_or_pst(Some("nst")));
    assert!(!is_ost_or_pst(None));
}

fn found(name: &str, bytes: u64) -> Found<u32> {
    Found {
        path: bytes as u32,
        name: name.to_string(),
        bytes,
        account: None,
        source: "x".to_string(),
    }
}

#[test]
fn a_store_named_twice_is_listed_once() {
    let all = stores(
        vec![found("C:\\A.ost", 1), found("C:\\b.ost", 2), found("c:\\a.OST", 3)],
        vec![found("C:\\B.OST", 4), found("C:\\\u{c9}.ost", 5), found("C:\\\u{e9}.ost", 6)],
    );
    let got: Vec<(&str, u64)> = all.iter().map(|f| (f.name.as_str(), f.bytes)).collect();
    assert_eq!(got, vec![("C:\\A.ost", 1), ("C:\\b.ost", 2), ("C:\\\u{c9}.ost", 5)]);
}

#[test]
fn profiles_lead_the_directory() {
    assert_eq!(primary(vec![found("p", 1)], vec![found("d", 2)]), Some(1));
    assert_eq!(primary(vec![], vec![found("d", 2)]), Some(2));
    assert_eq!(primary(Vec::<Found<u32>>::new(), vec![]), None);
}

fn entry(file_name: &str, bytes: Option<u64>) -> DirEntry<u32> {
    DirEntry {
        path: 0,
        name: format!("/dir/{file_name}"),
        file_name: file_name.to_string(),
        bytes,
    }
}

#[test]
fn a_directory_lists_its_stores_largest_first() {
    let list = from_directory(vec![
        entry("small.pst", Some(1)),
        entry("notes.txt", Some(100)),
        entry("large.ost", Some(9)),
        entry("gone.ost", None),
        entry("also large.ost", Some(9)),
    ]);
    let got: Vec<&str> = list.iter().map(|f| f.name.as_str()).collect();
    assert_eq!(got, vec!["/dir/large.ost", "/dir/also large.ost", "/dir/small.pst"]);
    assert!(list.iter().all(|f| f.source == "directory" && f.account.is_none()));
}

fn wide(s: &str) -> RegValue {
    let mut u: Vec<u16> = s.encode_utf16().collect();
    u.push(0);
    u.extend("rest".encode_utf16());
    RegValue::Wide(u)
}

#[test]
fn registry_text_ends_at_its_terminator() {
    assert_eq!(decode(&wide("C:\\a.ost")).as_deref(), Some("C:\\a.ost"));
    assert_eq!(decode(&RegValue::Wide(vec![0x41, 0xd800])).as_deref(), Some("A\u{fffd}"));
    assert_eq!(decode(&RegValue::Wide(vec![])).as_deref(), Some(""));
    assert_eq!(decode(&RegValue::Other), None);
}

fn key(values: Vec<(&str, RegValue)>, keys: Vec<ProfileKey>) -> ProfileKey {
    ProfileKey {
        values: values.into_iter().map(|(n, v)| (n.to_string(), v)).collect(),
        keys,
    }
}

fn told(c: &[Candidate]) -> Vec<(&str, Option<&str>, &str)> {
    c.iter().map(|c| (c.path.as_str(), c.account.as_deref(), c.source.as_str())).collect()
}

#[test]
fn a_subtree_is_walked_to_its_depth() {
    let bottom = key(vec![("v", wide("bottom.ost"))], vec![]);
    let third = key(vec![("v", wide("third.ost"))], vec![bottom]);
    let second = key(vec![("v", wide("second.ost"))], vec![third]);
    let first = key(
        vec![
            ("001f6610", wide("first.ost")),
            ("001f3001", wide("Account")),
            ("n", RegValue::Other),
            ("g", wide("groups.nst")),
            ("p", wide("added.PST")),
        ],
        vec![second],
    );
    let mut out = Vec::new();
    walk(&first, 2, &"s".to_string(), &mut out);
    assert_eq!(
        told(&out),
        vec![
            ("first.ost", Some("Account"), "s"),
            ("added.PST", Some("Account"), "s"),
            ("second.ost", None, "s"),
            ("third.ost", None, "s"),
        ]
    );
    assert!(out.iter().all(|c| is_store(&c.path)));
}

#[test]
fn an_empty_account_name_is_none() {
    let k = key(vec![("001f3001", wide("")), ("v", wide("a.ost"))], vec![]);
    let mut out = Vec::new();
    walk(&k, 0, &"s".to_string(), &mut out);
    assert_eq!(told(&out), vec![("a.ost", None, "s")]);
}

#[test]
fn registry_names_are_compared_without_case() {
    let k = key(vec![("v", wide("a.ost")), ("001F3001", wide("Account"))], vec![]);
    let mut out = Vec::new();
    walk(&k, 0, &"s".to_string(), &mut out);
    assert_eq!(told(&out), vec![("a.ost", Some("Account"), "s")]);
}

fn profile(name: &str, store: &str) -> ProfileRecord {
    ProfileRecord { name: name.to_string(), key: key(vec![("v", wide(store))], vec![]) }
}

#[test]
fn the_default_profile_leads_its_version() {
    let versions = vec![
        OfficeVersion {
            default: Some("WORK".to_string()),
            profiles: vec![profile("Home", "home.ost"), profile("Work", "work.ost"), profile("Z", "z.ost")],
        },
        OfficeVersion { default: None, profiles: vec![profile("a\"b", "old.ost")] },
    ];
    assert_eq!(
        told(&from_profiles(&versions)),
        vec![
            ("work.ost", None, "profile \"Work\""),
            ("home.ost", None, "profile \"Home\""),
            ("z.ost", None, "profile \"Z\""),
            ("old.ost", None, "profile \"a\\\"b\""),
        ]
    );
}
