use asmbl::{FsPath, Relativiser};

#[test]
fn parse_and_render_round() {
    let p = FsPath::parse("/a/b/c.txt");
    assert!(p.is_absolute());
    assert_eq!(p.to_text(), "/a/b/c.txt");
    let q = FsPath::parse("x/y");
    assert!(!q.is_absolute());
    assert_eq!(q.to_text(), "x/y");
    let r = FsPath::parse("a//b/c");
    assert_eq!(r.to_text(), "a/b/c");
    // `.` and `..` are kept as read; normalisation is the relativiser's work.
    assert_eq!(FsPath::parse("a/./b").to_text(), "a/./b");
}

#[test]
fn relativises_under_context() {
    let context = FsPath::parse("/p");
    let relativiser = Relativiser::new(FsPath::parse("/p"));
    let r = relativiser
        .relativise(&context, &FsPath::parse("/p/src/a.c"))
        .unwrap();
    assert_eq!(r.to_text(), "src/a.c");
    // A relative path is put below the base first.
    let r2 = relativiser
        .relativise(&context, &FsPath::parse("src/../a.c"))
        .unwrap();
    assert_eq!(r2.to_text(), "a.c");
    // A path beside the context walks back up.
    let r3 = relativiser
        .relativise(&context, &FsPath::parse("/q/b.c"))
        .unwrap();
    assert_eq!(r3.to_text(), "../q/b.c");
}

#[test]
fn relativise_is_idempotent_here() {
    let context = FsPath::parse("/p");
    let relativiser = Relativiser::new(FsPath::parse("/p"));
    let once = relativiser
        .relativise(&context, &FsPath::parse("/p/x/../y/z.h"))
        .unwrap();
    let twice = relativiser.relativise(&context, &once).unwrap();
    assert_eq!(once.to_text(), twice.to_text());
    assert!(once.matches(&twice));
}

#[test]
fn relativise_round_trips_under_context() {
    // Joining the context back onto the relativised form reaches the same
    // file as the original path.
    let context = FsPath::parse("/p");
    let relativiser = Relativiser::new(FsPath::parse("/p"));
    let p = FsPath::parse("/p/src/./lib/../a.c");
    let r = relativiser.relativise(&context, &p).unwrap();
    assert_eq!(r.to_text(), "src/a.c");
    let joined = context.join(&r);
    assert_eq!(joined.to_text(), "/p/src/a.c");
}

#[test]
fn underflow_is_reported() {
    let context = FsPath::parse("/p");
    let relativiser = Relativiser::new(FsPath::parse("/p"));
    let r = relativiser.relativise(&context, &FsPath::parse("/../.."));
    assert_eq!(r.unwrap_err(), asmbl::path::Error::Underflow);
}

#[test]
fn file_stem_and_extension() {
    assert_eq!(FsPath::parse("a/b.tar.gz").file_stem(), Some("b.tar".to_string()));
    assert_eq!(FsPath::parse("a/b.tar.gz").extension(), Some("gz".to_string()));
    assert_eq!(FsPath::parse(".hidden").file_stem(), Some(".hidden".to_string()));
    assert_eq!(FsPath::parse(".hidden").extension(), None);
    assert_eq!(FsPath::parse("noext").file_stem(), Some("noext".to_string()));
    assert_eq!(FsPath::parse("noext").extension(), None);
    assert_eq!(FsPath::parse("a/..").file_stem(), None);
}
