use netconf_language_server::closure::{ClosureWalk, NameIndex, ResolveStats};
use std::path::{Path, PathBuf};
use yrepo::CatalogIndex;

fn paths(ps: &[&str]) -> Vec<String> {
    ps.iter().map(|p| p.to_string()).collect()
}

#[test]
fn basenames_drop_revision_suffix_and_sort_candidates() {
    let ix = NameIndex::build_owned(paths(&[
        "/w/b@2021-01-01.yang",
        "/w/a.yang",
        "/w/b@2019-01-01.yang",
        "/w/devs-spi.yang",
    ]));
    assert_eq!(ix.names_len(), 3);
    assert_eq!(ix.file_count(), 4);
    assert_eq!(
        ix.candidates("b").to_vec(),
        paths(&["/w/b@2019-01-01.yang", "/w/b@2021-01-01.yang"])
    );
    assert_eq!(ix.candidates("a").to_vec(), paths(&["/w/a.yang"]));
    assert!(ix.candidates("zzz").is_empty());
}

#[test]
fn prefix_fallback_is_sorted_and_capped() {
    let ix = NameIndex::build_owned(paths(&[
        "/w/devs-spi.yang",
        "/w/devs-abc.yang",
        "/w/other.yang",
    ]));
    assert_eq!(
        ix.prefix_candidates("devs", 10),
        paths(&["/w/devs-abc.yang", "/w/devs-spi.yang"])
    );
    assert_eq!(ix.prefix_candidates("devs", 1).len(), 1);
    assert!(ix.prefix_candidates("", 10).is_empty());
    assert!(ix.prefix_candidates("zz", 10).is_empty());
}

#[test]
fn prefix_fallback_takes_names_in_name_order() {
    let ix = NameIndex::build_owned(paths(&["/w/devb.yang", "/w/deva.yang", "/x/deva.yang"]));
    assert_eq!(ix.prefix_candidates("dev", 1), paths(&["/w/deva.yang"]));
    assert_eq!(ix.prefix_candidates("dev", 2), paths(&["/w/deva.yang", "/x/deva.yang"]));
    assert_eq!(
        ix.prefix_candidates("dev", 5),
        paths(&["/w/deva.yang", "/w/devb.yang", "/x/deva.yang"])
    );
}

#[test]
fn prefix_fallback_offers_what_there_is_up_to_the_limit() {
    let ix = NameIndex::build_owned(paths(&["/w/a.yang", "/w/devs-spi.yang"]));
    assert_eq!(ix.prefix_candidates("devs", 256), paths(&["/w/devs-spi.yang"]));
    let ix = NameIndex::build_owned(paths(&["/z/devs-b.yang", "/w/devs-a.yang", "/y/devs-a@2020.yang"]));
    assert_eq!(ix.prefix_candidates("devs", 2).len(), 2);
    assert_eq!(
        ix.prefix_candidates("devs", 3),
        paths(&["/w/devs-a.yang", "/y/devs-a@2020.yang", "/z/devs-b.yang"])
    );
    assert_eq!(ix.candidates("devs-a").to_vec(), paths(&["/w/devs-a.yang", "/y/devs-a@2020.yang"]));
}

#[test]
fn paths_without_a_name_are_skipped() {
    let ix = NameIndex::build_owned(paths(&["/w/@2019.yang", "/"]));
    assert_eq!(ix.names_len(), 0);
    assert_eq!(ix.file_count(), 0);
    let empty = NameIndex::new();
    assert_eq!(empty.names_len(), 0);
    let stats = ResolveStats::new();
    assert_eq!((stats.names, stats.parsed, stats.missing.len()), (0, 0, 0));
}

type Seed = (String, Option<String>);

/// Drive a closure walk against a yrepo catalog, as the server does:
/// known names resolve through the catalog, unknown ones by parsing their
/// candidate files' headers.
fn lazy_closure_urls<F>(index: &mut CatalogIndex, paths: &NameIndex, seeds: &[Seed], url_for: &F) -> (Vec<String>, ResolveStats)
where
    F: Fn(&Path) -> Option<String> + Send + Sync,
{
    let mut walk = ClosureWalk::new(seeds);
    while let Some((name, pin)) = walk.next() {
        let (winner, parsed) = match index.resolve(&name, pin.as_deref()) {
            Some(entry) => (Some(entry.url.to_string()), 0),
            None => {
                let candidates = paths.parse_candidates(&name);
                if candidates.is_empty() {
                    (None, 0)
                } else {
                    let parsed = index.scan_many_files_with(candidates.iter().map(PathBuf::from), url_for);
                    (index.resolve(&name, pin.as_deref()).map(|e| e.url.to_string()), parsed)
                }
            }
        };
        let deps: Vec<Seed> = match winner.as_deref().and_then(|u| index.of_url(u)) {
            Some(entry) => entry
                .imports
                .iter()
                .map(|i| (i.module.clone(), i.revision.clone()))
                .chain(entry.includes.iter().map(|s| (s.clone(), None)))
                .collect(),
            None => Vec::new(),
        };
        walk.record(&name, winner, parsed, &deps);
    }
    walk.finish()
}

fn index_with(files: &[(&str, &str)]) -> CatalogIndex {
    let mut index = CatalogIndex::default();
    for (url, src) in files {
        index.push(yrepo::Catalog::scan(*url, *src));
    }
    index
}

fn has(urls: &[String], u: &str) -> bool {
    urls.iter().any(|x| x == u)
}

#[test]
fn closure_urls_honors_pins_and_follows_includes() {
    let index = index_with(&[
        (
            "/d/a.yang",
            "module a { namespace \"urn:a\"; prefix a; import b { prefix b; revision-date 2019-01-01; } include a-sub; }",
        ),
        (
            "/d/b.yang",
            "module b { namespace \"urn:b\"; prefix b; revision 2020-01-01; import c { prefix c; } }",
        ),
        (
            "/d/b@2019-01-01.yang",
            "module b { namespace \"urn:b\"; prefix b; revision 2019-01-01; import c { prefix c; } }",
        ),
        ("/d/c.yang", "module c { namespace \"urn:c\"; prefix c; }"),
        (
            "/d/a-sub.yang",
            "submodule a-sub { belongs-to a { prefix a; } leaf s { type string; } }",
        ),
    ]);
    // Pinned import resolves to the exact revision file.
    let mut index = index;
    let (urls, _stats) = lazy_closure_urls(
        &mut index,
        &NameIndex::new(),
        &[("a".to_owned(), None)],
        &|_p: &Path| None,
    );
    assert!(has(&urls, "/d/a.yang"));
    assert!(has(&urls, "/d/b@2019-01-01.yang"));
    assert!(!has(&urls, "/d/b.yang"), "latest b is not the pinned one");
    assert!(has(&urls, "/d/c.yang"));
    assert!(has(&urls, "/d/a-sub.yang"), "include edge materializes the submodule");
}

#[test]
fn closure_urls_skips_unresolvable_names() {
    let index = index_with(&[(
        "/d/d.yang",
        "module d { namespace \"urn:d\"; prefix d; import ghost { prefix g; } }",
    )]);
    let mut index = index;
    let (urls, _stats) = lazy_closure_urls(
        &mut index,
        &NameIndex::new(),
        &[("d".to_owned(), None)],
        &|_p: &Path| None,
    );
    assert!(has(&urls, "/d/d.yang"));
    assert_eq!(urls.len(), 1, "ghost is not in the tree and is skipped");
}

#[test]
fn lazy_closure_reports_missing_names() {
    let paths = NameIndex::new();
    let mut index = CatalogIndex::default();
    let url_for = |p: &Path| Some(format!("file://{}", p.display()));
    let (needed, stats) =
        lazy_closure_urls(&mut index, &paths, &[("ghost".to_owned(), None)], &url_for);
    assert!(needed.is_empty());
    assert_eq!(stats.missing, vec!["ghost".to_owned()]);
    assert_eq!(stats.parsed, 0);
}

#[test]
fn walk_queues_each_dependency_once_and_counts_names() {
    let mut walk = ClosureWalk::new(&[("a".to_owned(), None)]);
    assert_eq!(walk.next(), Some(("a".to_owned(), None)));
    let deps = vec![
        ("b".to_owned(), Some("2019-01-01".to_owned())),
        ("b".to_owned(), Some("2019-01-01".to_owned())),
        ("b".to_owned(), None),
        ("a".to_owned(), None),
    ];
    walk.record("a", Some("/d/a.yang".to_owned()), 3, &deps);
    assert_eq!(walk.next(), Some(("b".to_owned(), Some("2019-01-01".to_owned()))));
    walk.record("b", None, 0, &[]);
    assert_eq!(walk.next(), Some(("b".to_owned(), None)));
    walk.record("b", None, 1, &[]);
    assert_eq!(walk.next(), None);
    walk.record("b", Some("/d/a.yang".to_owned()), 0, &[]);
    let (needed, stats) = walk.finish();
    assert_eq!(needed, vec!["/d/a.yang".to_owned()]);
    assert_eq!(stats.names, 3);
    assert_eq!(stats.parsed, 4);
    assert_eq!(stats.missing, vec!["b".to_owned()]);
}

#[test]
fn parse_candidates_fall_back_to_name_prefixes() {
    let ix = NameIndex::build_owned(paths(&["/w/devs-spi.yang", "/w/b@2019-01-01.yang"]));
    assert_eq!(ix.parse_candidates("b"), paths(&["/w/b@2019-01-01.yang"]));
    assert_eq!(ix.parse_candidates("devs"), paths(&["/w/devs-spi.yang"]));
    assert!(ix.parse_candidates("zzz").is_empty());
}
