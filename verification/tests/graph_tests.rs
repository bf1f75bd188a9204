use asmbl::{
    EnvSpec, FileStat, FsPath, PrerequisiteSpec, Recipe, StatView, TaskList, UnitBuilder, UnitEntry,
};

fn named(path: &str) -> PrerequisiteSpec {
    PrerequisiteSpec::Named(FsPath::parse(path), false)
}

fn simple_recipe(text: &str) -> Recipe {
    Recipe::parse(text).expect("recipe should parse")
}

fn one_unit(builder: UnitBuilder) -> Vec<UnitEntry> {
    vec![UnitEntry { base: FsPath::parse("/p"), unit: builder.unit() }]
}

fn builder() -> UnitBuilder {
    UnitBuilder::new(FsPath::parse("/p"), FsPath::parse("/p"))
}

#[test]
fn single_compile_step_stale() {
    // One task: a.o from a.c; the source exists, the target does not.
    let mut b = builder();
    b.add_task(
        vec!["%f.o".to_string()],
        vec![named("a.c")],
        vec![],
        vec![],
        true,
        vec![],
        simple_recipe("cc -c $< -o $@"),
    )
    .unwrap();
    let plan = TaskList::plan(&FsPath::parse("/p"), &FsPath::parse("out"), one_unit(b)).unwrap();
    let list = TaskList::new(plan, vec![]).unwrap();
    assert_eq!(list.len(), 1);

    let mut fs = StatView::new();
    fs.push(FsPath::parse("a.c"), FileStat::Present(100));
    let stale = list.retain_out_of_date(1000, &fs).unwrap();
    assert_eq!(stale.len(), 1);
    assert_eq!(stale[0].index, 0);

    let pc = list.get(0).prepare().unwrap();
    assert_eq!(pc.cmd, "cc");
    assert_eq!(
        pc.args,
        vec!["-c".to_string(), "a.c".to_string(), "-o".to_string(), "out/a.o".to_string()]
    );
}

#[test]
fn fresh_target_stays_out() {
    let mut b = builder();
    b.add_task(
        vec!["%f.o".to_string()],
        vec![named("a.c")],
        vec![],
        vec![],
        true,
        vec![],
        simple_recipe("cc -c $< -o $@"),
    )
    .unwrap();
    let plan = TaskList::plan(&FsPath::parse("/p"), &FsPath::parse("out"), one_unit(b)).unwrap();
    let list = TaskList::new(plan, vec![]).unwrap();

    let mut fs = StatView::new();
    fs.push(FsPath::parse("a.c"), FileStat::Present(100));
    fs.push(FsPath::parse("out/a.o"), FileStat::Present(200));
    let stale = list.retain_out_of_date(1000, &fs).unwrap();
    assert_eq!(stale.len(), 0);
}

#[test]
fn transitive_rebuild() {
    // T1 makes a.o from a.c; T2 makes app from T1's target.  The source is
    // newer than a.o, so both run, producer first.
    let mut b = builder();
    let mut handles = b
        .add_task(
            vec!["%f.o".to_string()],
            vec![named("a.c")],
            vec![],
            vec![],
            true,
            vec![],
            simple_recipe("cc -c $< -o $@"),
        )
        .unwrap();
    let h = handles.next().unwrap();
    b.add_task(
        vec!["app".to_string()],
        vec![PrerequisiteSpec::Handle(h)],
        vec![],
        vec![],
        true,
        vec![],
        simple_recipe("ld $< -o $@"),
    )
    .unwrap();
    let plan = TaskList::plan(&FsPath::parse("/p"), &FsPath::parse("out"), one_unit(b)).unwrap();
    let list = TaskList::new(plan, vec![]).unwrap();
    assert_eq!(list.len(), 2);

    let mut fs = StatView::new();
    fs.push(FsPath::parse("a.c"), FileStat::Present(300));
    fs.push(FsPath::parse("out/a.o"), FileStat::Present(100));
    fs.push(FsPath::parse("out/app"), FileStat::Present(200));
    let stale = list.retain_out_of_date(1000, &fs).unwrap();
    assert_eq!(stale.len(), 2);
    assert!(stale[0].index < stale[1].index);
}

#[test]
fn fan_out_splits_inputs() {
    let mut b = builder();
    b.add_task(
        vec!["%f.o".to_string()],
        vec![named("a.c"), named("b.c")],
        vec![],
        vec![],
        false,
        vec![],
        simple_recipe("cc -c $< -o $@"),
    )
    .unwrap();
    let plan = TaskList::plan(&FsPath::parse("/p"), &FsPath::parse("out"), one_unit(b)).unwrap();
    let list = TaskList::new(plan, vec![]).unwrap();
    assert_eq!(list.len(), 2);
    let mut texts: Vec<String> = Vec::new();
    for i in 0..list.len() {
        let t = list.get(i).targets();
        assert_eq!(t.len(), 1);
        texts.push(t.get(0).to_text());
    }
    texts.sort();
    assert_eq!(texts, vec!["out/a.o".to_string(), "out/b.o".to_string()]);
}

#[test]
fn fragment_merges_dynamic_dependency() {
    // T0 produces deps.d; T1 produces a.o.  The fragment file declares that
    // a.o further depends on a.h.
    let mut b = builder();
    let mut handles = b
        .add_task(
            vec!["deps.d".to_string()],
            vec![named("a.c")],
            vec![],
            vec![],
            true,
            vec![],
            simple_recipe("makedep $< -o $@"),
        )
        .unwrap();
    let h0 = handles.next().unwrap();
    b.add_task(
        vec!["a.o".to_string()],
        vec![named("a.c")],
        vec![],
        vec![],
        true,
        vec![],
        simple_recipe("cc -c $< -o $@"),
    )
    .unwrap();
    b.add_fragment(h0);
    let plan = TaskList::plan(&FsPath::parse("/p"), &FsPath::parse("out"), one_unit(b)).unwrap();
    let paths = plan.fragment_paths();
    assert_eq!(paths.len(), 1);
    assert_eq!(paths[0].to_text(), "out/deps.d");
    let list = TaskList::new(plan, vec!["out/a.o: a.h".to_string()]).unwrap();
    assert_eq!(list.len(), 2);
    // The producer of a.o gained an optional named prerequisite a.h.
    let mut found = false;
    for i in 0..list.len() {
        let task = list.get(i);
        for p in task.upstream().iter() {
            if let asmbl::Prerequisite::Named(path, optional) = p {
                if path.to_text() == "a.h" {
                    assert!(*optional);
                    found = true;
                }
            }
        }
    }
    assert!(found);
}

#[test]
fn optional_absent_prerequisite_is_ignored() {
    let mut b = builder();
    b.add_task(
        vec!["a.o".to_string()],
        vec![named("a.c")],
        vec![PrerequisiteSpec::Named(FsPath::parse("gen.h"), true)],
        vec![],
        true,
        vec![],
        simple_recipe("cc -c $< -o $@"),
    )
    .unwrap();
    let plan = TaskList::plan(&FsPath::parse("/p"), &FsPath::parse("out"), one_unit(b)).unwrap();
    let list = TaskList::new(plan, vec![]).unwrap();
    let mut fs = StatView::new();
    fs.push(FsPath::parse("a.c"), FileStat::Present(100));
    fs.push(FsPath::parse("out/a.o"), FileStat::Present(200));
    // gen.h is absent but optional: the evaluation succeeds and nothing is
    // stale.
    let stale = list.retain_out_of_date(1000, &fs).unwrap();
    assert_eq!(stale.len(), 0);
}

#[test]
fn required_absent_prerequisite_fails() {
    let mut b = builder();
    b.add_task(
        vec!["a.o".to_string()],
        vec![named("a.c")],
        vec![],
        vec![],
        true,
        vec![],
        simple_recipe("cc -c $< -o $@"),
    )
    .unwrap();
    let plan = TaskList::plan(&FsPath::parse("/p"), &FsPath::parse("out"), one_unit(b)).unwrap();
    let list = TaskList::new(plan, vec![]).unwrap();
    let fs = StatView::new();
    let r = list.retain_out_of_date(1000, &fs);
    match r {
        Err(asmbl::CakeError::PrerequisiteMissing(p)) => {
            assert_eq!(p.to_text(), "a.c");
        }
        _ => panic!("expected a missing prerequisite"),
    }
}

#[test]
fn marker_without_input_is_no_input() {
    let mut b = builder();
    b.add_task(
        vec!["%f.o".to_string()],
        vec![],
        vec![],
        vec![],
        true,
        vec![],
        simple_recipe("touch $@"),
    )
    .unwrap();
    let r = TaskList::plan(&FsPath::parse("/p"), &FsPath::parse("out"), one_unit(b));
    match r {
        Err(asmbl::NewTaskListError::ResolveError(e)) => {
            assert_eq!(e, asmbl::ResolveError::NoInput);
        }
        _ => panic!("expected a resolve error"),
    }
}

#[test]
fn marker_errors() {
    for (spec, expected) in [
        ("a%", asmbl::ResolveError::MissingMarkerCharacter),
        ("a%z", asmbl::ResolveError::InvalidMarkerCharacter),
    ] {
        let mut b = builder();
        b.add_task(
            vec![spec.to_string()],
            vec![named("a.c")],
            vec![],
            vec![],
            true,
            vec![],
            simple_recipe("touch $@"),
        )
        .unwrap();
        let r = TaskList::plan(&FsPath::parse("/p"), &FsPath::parse("out"), one_unit(b));
        match r {
            Err(asmbl::NewTaskListError::ResolveError(e)) => assert_eq!(e, expected),
            _ => panic!("expected a resolve error"),
        }
    }
}

#[test]
fn percent_escapes_percent() {
    let mut b = builder();
    b.add_task(
        vec!["100%%.log".to_string()],
        vec![],
        vec![],
        vec![],
        true,
        vec![],
        simple_recipe("touch $@"),
    )
    .unwrap();
    let plan = TaskList::plan(&FsPath::parse("/p"), &FsPath::parse("out"), one_unit(b)).unwrap();
    let list = TaskList::new(plan, vec![]).unwrap();
    assert_eq!(list.get(0).targets().get(0).to_text(), "out/100%.log");
}

#[test]
fn second_run_after_rebuild_is_empty() {
    // The stale task is "built": its target becomes newer than its input.
    // A second evaluation on the updated snapshot emits nothing.
    let mut b = builder();
    b.add_task(
        vec!["a.o".to_string()],
        vec![named("a.c")],
        vec![],
        vec![],
        true,
        vec![],
        simple_recipe("cc -c $< -o $@"),
    )
    .unwrap();
    let plan = TaskList::plan(&FsPath::parse("/p"), &FsPath::parse("out"), one_unit(b)).unwrap();
    let list = TaskList::new(plan, vec![]).unwrap();

    let mut before = StatView::new();
    before.push(FsPath::parse("a.c"), FileStat::Present(300));
    before.push(FsPath::parse("out/a.o"), FileStat::Present(100));
    assert_eq!(list.retain_out_of_date(1000, &before).unwrap().len(), 1);

    let mut after = StatView::new();
    after.push(FsPath::parse("a.c"), FileStat::Present(300));
    after.push(FsPath::parse("out/a.o"), FileStat::Present(1000));
    assert_eq!(list.retain_out_of_date(2000, &after).unwrap().len(), 0);
    // The same snapshot at two different moments agrees.
    assert_eq!(list.retain_out_of_date(3000, &after).unwrap().len(), 0);
}

#[test]
fn env_and_sub_units_recorded() {
    let mut b = builder();
    b.add_sub_unit(FsPath::parse("lib/asmbl.lua")).unwrap();
    let unit = b.unit();
    assert_eq!(unit.sub_units().len(), 1);
    assert_eq!(unit.sub_units()[0].to_text(), "lib/asmbl.lua");
    let env = EnvSpec::define("K".to_string(), "v".to_string());
    assert_eq!(env.name(), "K");
}
