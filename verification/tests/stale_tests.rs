use asmbl::{
    FileStat, FsPath, PrerequisiteSpec, Recipe, StatView, TargetSpecHandle, TaskList, UnitBuilder,
    UnitEntry,
};

fn builder() -> UnitBuilder {
    UnitBuilder::new(FsPath::parse("/p"), FsPath::parse("/p"))
}

fn add_simple(b: &mut UnitBuilder, target: &str, input: &str) {
    b.add_task(
        vec![target.to_string()],
        vec![PrerequisiteSpec::Named(FsPath::parse(input), false)],
        vec![],
        vec![],
        true,
        vec![],
        Recipe::parse("cc -c $< -o $@").unwrap(),
    )
    .unwrap();
}

fn plan_one(b: UnitBuilder) -> TaskList {
    let units = vec![UnitEntry { base: FsPath::parse("/p"), unit: b.unit() }];
    let plan = TaskList::plan(&FsPath::parse("/p"), &FsPath::parse("out"), units).unwrap();
    TaskList::new(plan, vec![]).unwrap()
}

#[test]
fn no_modification_time_is_an_error() {
    let mut b = builder();
    add_simple(&mut b, "a.o", "a.c");
    let list = plan_one(b);
    let mut fs = StatView::new();
    fs.push(FsPath::parse("a.c"), FileStat::NoModTime);
    match list.retain_out_of_date(1000, &fs) {
        Err(asmbl::CakeError::NoLastModifiedTime(p)) => assert_eq!(p.to_text(), "a.c"),
        _ => panic!("expected a missing modification time"),
    }
}

#[test]
fn unreadable_target_is_an_error() {
    let mut b = builder();
    add_simple(&mut b, "a.o", "a.c");
    let list = plan_one(b);
    let mut fs = StatView::new();
    fs.push(FsPath::parse("a.c"), FileStat::Present(100));
    fs.push(FsPath::parse("out/a.o"), FileStat::Inaccessible);
    match list.retain_out_of_date(1000, &fs) {
        Err(asmbl::CakeError::IoError(p)) => assert_eq!(p.to_text(), "out/a.o"),
        _ => panic!("expected an access error"),
    }
}

#[test]
fn forged_handle_is_refused() {
    let mut b = builder();
    b.add_task(
        vec!["a.o".to_string()],
        vec![PrerequisiteSpec::Handle(TargetSpecHandle::new(7, 0))],
        vec![],
        vec![],
        true,
        vec![],
        Recipe::parse("cc").unwrap(),
    )
    .unwrap();
    let units = vec![UnitEntry { base: FsPath::parse("/p"), unit: b.unit() }];
    let r = TaskList::plan(&FsPath::parse("/p"), &FsPath::parse("out"), units);
    assert!(matches!(r, Err(asmbl::NewTaskListError::BadHandle)));
}

#[test]
fn self_feeding_task_is_a_circle() {
    // The task's first input is its own target: resolving the target chases
    // itself.
    let mut b = builder();
    let mut handles = b
        .add_task(
            vec!["loop.o".to_string()],
            vec![],
            vec![],
            vec![],
            true,
            vec![],
            Recipe::parse("cc").unwrap(),
        )
        .unwrap();
    let h = handles.next().unwrap();
    // Rebuild the unit with the task consuming its own handle.
    let mut b2 = builder();
    b2.add_task(
        vec!["%f.o".to_string()],
        vec![PrerequisiteSpec::Handle(h)],
        vec![],
        vec![],
        true,
        vec![],
        Recipe::parse("cc").unwrap(),
    )
    .unwrap();
    let units = vec![UnitEntry { base: FsPath::parse("/p"), unit: b2.unit() }];
    let r = TaskList::plan(&FsPath::parse("/p"), &FsPath::parse("out"), units);
    assert!(matches!(r, Err(asmbl::NewTaskListError::CyclicDependency)));
}

#[test]
fn cyclic_tasks_are_left_out() {
    // Two tasks feeding each other by name are unreachable from any leaf
    // and drop out of the order quietly.
    let mut b = builder();
    add_simple(&mut b, "x", "out/y");
    add_simple(&mut b, "y", "out/x");
    add_simple(&mut b, "free", "input.txt");
    let list = plan_one(b);
    assert_eq!(list.len(), 1);
    assert_eq!(list.get(0).targets().get(0).to_text(), "out/free");
}

#[test]
fn depends_on_counts_for_staleness() {
    let mut b = builder();
    b.add_task(
        vec!["a.o".to_string()],
        vec![PrerequisiteSpec::Named(FsPath::parse("a.c"), false)],
        vec![PrerequisiteSpec::Named(FsPath::parse("a.h"), false)],
        vec![],
        true,
        vec![],
        Recipe::parse("cc -c $< -o $@").unwrap(),
    )
    .unwrap();
    let list = plan_one(b);
    let mut fs = StatView::new();
    fs.push(FsPath::parse("a.c"), FileStat::Present(100));
    fs.push(FsPath::parse("a.h"), FileStat::Present(500));
    fs.push(FsPath::parse("out/a.o"), FileStat::Present(200));
    // The header is newer than the target, so the task is stale, though the
    // consumed source is older.
    let stale = list.retain_out_of_date(1000, &fs).unwrap();
    assert_eq!(stale.len(), 1);
    // The header is no input: the rendered command names only the source.
    let pc = list.get(0).prepare().unwrap();
    assert_eq!(
        pc.args,
        vec!["-c".to_string(), "a.c".to_string(), "-o".to_string(), "out/a.o".to_string()]
    );
}
