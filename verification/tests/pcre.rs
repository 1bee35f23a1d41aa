use pcre2::bytes::RegexBuilder;
use rlp::regex::compile;
use rlp::Capture;

// `%w` is the alphanumeric class; PCRE's `\w` takes `_` as well. On this
// subject both find two matches that begin at the same bytes, and the first
// match of `\w+&?` goes on over `__&`.

#[test]
fn mod_it_works() {
    let regex = compile("%w+&?").unwrap();
    let subj = "bab__&&&ghi";
    let m = regex.match_all(subj);
    let pcre = RegexBuilder::new()
        .ucp(true)
        .utf(true)
        .build(r"\w+&?")
        .unwrap();
    let pcre_m = pcre.find_iter(b"bab__&&&ghi").collect::<Vec<_>>();
    assert_eq!(pcre_m.len(), m.len());
    let mut ours = Vec::new();
    let mut theirs = Vec::new();
    for (m, pcre_m) in m.iter().zip(pcre_m.iter().map(|m| m.as_ref().unwrap())) {
        let range = m.captures.first().unwrap();
        let s1 = &subj[range.start..range.end];
        let s2 = &subj[pcre_m.start()..pcre_m.end()];
        assert_eq!(range.start, pcre_m.start());
        assert!(s2.starts_with(s1));
        ours.push(s1);
        theirs.push(s2);
    }
    assert_eq!(vec!["bab", "ghi"], ours);
    assert_eq!(vec!["bab__&", "ghi"], theirs);
}

#[test]
fn recursive_it_works() {
    let regex = compile("%w+&?").unwrap();
    let subj = "bab__&&&ghi";
    let m = regex.match_all(subj);
    let pcre = RegexBuilder::new()
        .ucp(true)
        .utf(true)
        .build(r"\w+&?")
        .unwrap();
    let pcre_m = pcre.find_iter(b"bab__&&&ghi").collect::<Vec<_>>();
    assert_eq!(pcre_m.len(), m.len());
    let mut ours = Vec::new();
    let mut theirs = Vec::new();
    for (m, pcre_m) in m.iter().zip(pcre_m.iter().map(|m| m.as_ref().unwrap())) {
        let s1 = match m.capture(0).unwrap() {
            Capture::Value(s1) => s1,
            Capture::Index(_) => panic!("an empty match"),
        };
        let s2 = &subj[pcre_m.start()..pcre_m.end()];
        assert!(s2.starts_with(s1));
        ours.push(s1);
        theirs.push(s2);
    }
    assert_eq!(vec!["bab", "ghi"], ours);
    assert_eq!(vec!["bab__&", "ghi"], theirs);
}

#[test]
fn digits_agree_with_pcre() {
    let regex = compile("%d%d").unwrap();
    let subj = "2024-01-29";
    let m = regex.match_all(subj);
    let pcre = RegexBuilder::new().ucp(true).utf(true).build(r"\d\d").unwrap();
    let pcre_m = pcre.find_iter(subj.as_bytes()).collect::<Vec<_>>();
    assert_eq!(pcre_m.len(), m.len());
    for (m, pcre_m) in m.iter().zip(pcre_m.iter().map(|m| m.as_ref().unwrap())) {
        let range = m.captures.first().unwrap();
        assert_eq!((range.start, range.end), (pcre_m.start(), pcre_m.end()));
    }
}
