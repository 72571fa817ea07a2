use fast_file_sync::ffs_import::{import_root, parse_ffs, XmlElement};

const SAMPLE: &str = r#"<?xml version="1.0" encoding="utf-8"?>
<FreeFileSync XmlType="BATCH" XmlFormat="23">
  <Compare><Variant>TimeAndSize</Variant><Symlinks>Exclude</Symlinks></Compare>
  <Synchronize>
<Changes>
  <Left Create="right" Update="right" Delete="right"/>
  <Right Create="left" Update="left" Delete="left"/>
</Changes>
<DeletionPolicy>RecycleBin</DeletionPolicy>
  </Synchronize>
  <Filter>
<Include><Item>*</Item></Include>
<Exclude>
  <Item>\System Volume Information\</Item>
  <Item>*\node_modules\</Item>
  <Item>*\.git\</Item>
  <Item>*.gdoc</Item>
  <Item>*\__pycache__\</Item>
  <Item>*.venv |</Item>
  <Item>*desktop.ini</Item>
  <Item>\bin\</Item>
</Exclude>
  </Filter>
  <FolderPairs>
<Pair>
  <Left Threads="4">C:\Users\mail\Documents\ShareX\Screenshots</Left>
  <Right Threads="4">\\NAS\home\Screenshots</Right>
</Pair>
<Pair>
  <Left Threads="4">E:\MyDocuments</Left>
  <Right Threads="4">\\NAS\home\MyDocuments</Right>
</Pair>
<Pair>
  <Left Threads="4">E:\Programming</Left>
  <Right Threads="4">\\NAS\home\Programming</Right>
  <Synchronize>
    <Differences LeftOnly="right" LeftNewer="right" RightNewer="right" RightOnly="right"/>
    <DeletionPolicy>RecycleBin</DeletionPolicy>
  </Synchronize>
  <Filter>
    <Include><Item>*</Item></Include>
    <Exclude><Item>*\.ruff_cache</Item></Exclude>
  </Filter>
</Pair>
  </FolderPairs>
</FreeFileSync>"#;

#[test]
fn parses_pairs_and_modes() {
    let imp = parse_ffs(SAMPLE).unwrap();
    assert_eq!(imp.jobs.len(), 3);
    assert_eq!(imp.jobs[1].left, "E:\\MyDocuments");
    assert_eq!(imp.jobs[1].right, "\\\\NAS\\home\\MyDocuments");
    assert_eq!(imp.jobs[1].name, "MyDocuments");
    // pairs 1 & 2 are two-way; pair 3 is a one-way mirror.
    assert!(imp.jobs[0].two_way);
    assert!(imp.jobs[1].two_way);
    assert!(!imp.jobs[2].two_way);
    assert!(imp.jobs[0].use_recycle_bin);
    assert!(!imp.jobs[0].verify_by_hash); // TimeAndSize, not Content
}

#[test]
fn translates_filters() {
    let g = &parse_ffs(SAMPLE).unwrap().jobs[0].exclude_globs;
    assert!(g.contains(&"/System Volume Information/".to_string()));
    assert!(g.contains(&"node_modules/".to_string()));
    assert!(g.contains(&".git/".to_string()));
    assert!(g.contains(&"__pycache__/".to_string()));
    assert!(g.contains(&"*.gdoc".to_string()));
    assert!(g.contains(&"*desktop.ini".to_string()));
    assert!(g.contains(&"/bin/".to_string()));
    assert!(g.contains(&"*.venv".to_string())); // from "*.venv |"
}

#[test]
fn local_filter_combines_with_global() {
    let imp = parse_ffs(SAMPLE).unwrap();
    // pair 3 keeps the global excludes AND its own .ruff_cache.
    assert!(imp.jobs[2].exclude_globs.contains(&"node_modules/".to_string()));
    assert!(imp.jobs[2].exclude_globs.iter().any(|x| x.contains(".ruff_cache")));
}

#[test]
fn flags_gitignore_redundancy_and_review_notes() {
    let imp = parse_ffs(SAMPLE).unwrap();
    assert!(imp.jobs[0].gitignore_hint.is_some());
    assert!(imp.notes.iter().any(|n| n.contains("*.venv")));
}

#[test]
fn rejects_non_ffs() {
    assert!(parse_ffs("<html></html>").is_err());
    assert!(parse_ffs("not xml at all <").is_err());
}

#[test]
fn imported_names_and_warnings() {
    let imp = parse_ffs(SAMPLE).unwrap();
    assert_eq!(imp.jobs[0].name, "Screenshots");
    assert_eq!(imp.jobs[2].name, "Programming");
    // The mirror pair carries the review warning; every pair targets a share.
    assert!(imp.jobs[2].warnings.iter().any(|w| w.contains("one-way mirror")));
    assert!(imp.jobs[0].warnings.iter().any(|w| w.contains("network share")));
    assert!(!imp.jobs[0].warnings.iter().any(|w| w.contains("one-way mirror")));
}

#[test]
fn rejection_messages() {
    assert_eq!(
        parse_ffs("<html></html>").unwrap_err(),
        "this is not a FreeFileSync config (missing <FreeFileSync> root)"
    );
    assert_eq!(
        parse_ffs("<FreeFileSync><FolderPairs></FolderPairs></FreeFileSync>").unwrap_err(),
        "no folder pairs found in this config"
    );
    assert!(parse_ffs("not xml at all <").unwrap_err().starts_with("not valid XML: "));
}

fn el(name: &str, text: Option<&str>, children: Vec<XmlElement>) -> XmlElement {
    XmlElement { name: name.into(), attributes: vec![], text: text.map(Into::into), children }
}

#[test]
fn import_from_a_built_tree() {
    let pair = el(
        "Pair",
        None,
        vec![el("Left", Some(" C:\\Data "), vec![]), el("Right", Some("D:\\Backup\\Data"), vec![])],
    );
    let root = el("FreeFileSync", None, vec![el("FolderPairs", None, vec![pair])]);
    let imp = import_root(&root).unwrap();
    assert_eq!(imp.jobs.len(), 1);
    assert_eq!(imp.jobs[0].left, "C:\\Data");
    assert_eq!(imp.jobs[0].right, "D:\\Backup\\Data");
    assert_eq!(imp.jobs[0].name, "Data");
    assert!(imp.jobs[0].two_way);
    assert!(imp.jobs[0].use_recycle_bin);
    let other = el("Other", None, vec![]);
    assert_eq!(
        import_root(&other).unwrap_err(),
        "this is not a FreeFileSync config (missing <FreeFileSync> root)"
    );
    let empty = el("FreeFileSync", None, vec![el("FolderPairs", None, vec![el("Pair", None, vec![])])]);
    assert_eq!(import_root(&empty).unwrap_err(), "no folder pairs found in this config");
}
