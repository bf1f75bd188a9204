use asmbl::{ArgElement, EnvSpec, FsPath, Recipe, RecipeParseError, RecipePrepareError, Targets, Variable};

fn elems(s: &str) -> Vec<ArgElement> {
    asmbl::parse_elements(s).expect("elements should parse")
}

#[test]
fn can_parse_index() {
    assert_eq!(elems("$<[0]"), vec![ArgElement::Var(Variable::Input(0))]);
    assert_eq!(elems("$<[13]"), vec![ArgElement::Var(Variable::Input(13))]);
    assert_eq!(elems("$<[65472]"), vec![ArgElement::Var(Variable::Input(65472))]);
}

#[test]
fn can_parse_variable_name() {
    assert_eq!(elems("$<"), vec![ArgElement::Var(Variable::Inputs)]);
    assert_eq!(elems("$@"), vec![ArgElement::Var(Variable::Targets)]);
    assert_eq!(
        elems("$cake"),
        vec![ArgElement::Var(Variable::Other("cake".to_string()))]
    );
    assert_eq!(
        elems("$cheese_cake"),
        vec![ArgElement::Var(Variable::Other("cheese_cake".to_string()))]
    );
}

#[test]
fn can_parse_variable() {
    assert_eq!(elems("$<"), vec![ArgElement::Var(Variable::Inputs)]);
    assert_eq!(elems("$<[7]"), vec![ArgElement::Var(Variable::Input(7))]);
    assert_eq!(elems("$@"), vec![ArgElement::Var(Variable::Targets)]);
    assert_eq!(elems("$@[29]"), vec![ArgElement::Var(Variable::Target(29))]);
    assert_eq!(
        elems("$cake"),
        vec![ArgElement::Var(Variable::Other("cake".to_string()))]
    );
    // A named binding swallows its index.
    assert_eq!(
        elems("$cheese_cake[111]"),
        vec![ArgElement::Var(Variable::Other("cheese_cake".to_string()))]
    );
}

#[test]
fn can_parse_element() {
    assert_eq!(elems("argument"), vec![ArgElement::Str("argument".to_string())]);
    assert_eq!(elems("$<[7]"), vec![ArgElement::Var(Variable::Input(7))]);
    assert_eq!(elems("$@[29]"), vec![ArgElement::Var(Variable::Target(29))]);
    assert_eq!(
        elems("cake $<"),
        vec![
            ArgElement::Str("cake ".to_string()),
            ArgElement::Var(Variable::Inputs)
        ]
    );
    assert_eq!(
        elems("$@[42] cheese"),
        vec![
            ArgElement::Var(Variable::Target(42)),
            ArgElement::Str(" cheese".to_string())
        ]
    );
}

#[test]
fn can_parse_elements() {
    assert_eq!(elems("argument"), vec![ArgElement::Str("argument".to_string())]);
    assert!(asmbl::parse_elements("").is_err());
}

#[test]
fn can_parse_args() {
    assert_eq!(
        asmbl::parse_args("some simple args").unwrap(),
        vec!["some".to_string(), "simple".to_string(), "args".to_string()]
    );
    assert_eq!(
        asmbl::parse_args(r#"some "quoted with spaces" args"#).unwrap(),
        vec![
            "some".to_string(),
            "quoted with spaces".to_string(),
            "args".to_string()
        ]
    );
    assert_eq!(
        asmbl::parse_args(r#"some "quoted with spaces and \"escaped\" quotes" args"#).unwrap(),
        vec![
            "some".to_string(),
            r#"quoted with spaces and "escaped" quotes"#.to_string(),
            "args".to_string()
        ]
    );
    assert_eq!(
        asmbl::parse_args(r#""two quoted" "strings back to back""#).unwrap(),
        vec!["two quoted".to_string(), "strings back to back".to_string()]
    );
}

#[test]
fn empty_recipe_is_refused() {
    assert_eq!(Recipe::new(vec![]).unwrap_err(), RecipeParseError::NotEnoughArgs);
    assert!(Recipe::parse("").is_err());
}

#[test]
fn renders_positional_and_named_parts() {
    let recipe = Recipe::parse("cc -c $< -o $@").unwrap();
    let targets = Targets::Single(FsPath::parse("out/a.o"));
    let inputs = vec![FsPath::parse("a.c")];
    let env: Vec<EnvSpec> = vec![];
    let pc = recipe.prepare(&targets, &inputs, &env).unwrap();
    assert_eq!(pc.cmd, "cc");
    assert_eq!(
        pc.args,
        vec!["-c".to_string(), "a.c".to_string(), "-o".to_string(), "out/a.o".to_string()]
    );
}

#[test]
fn joins_inputs_with_spaces() {
    let recipe = Recipe::parse("ld $< -o $@[0]").unwrap();
    let targets = Targets::Multi(vec![FsPath::parse("out/app")]);
    let inputs = vec![FsPath::parse("a.o"), FsPath::parse("b.o")];
    let pc = recipe.prepare(&targets, &inputs, &vec![]).unwrap();
    assert_eq!(pc.cmd, "ld");
    assert_eq!(
        pc.args,
        vec!["a.o b.o".to_string(), "-o".to_string(), "out/app".to_string()]
    );
}

#[test]
fn input_index_out_of_range() {
    // `$<[2]` with only two inputs names a third one that is not there.
    let recipe = Recipe::parse("cp $<[2] $@").unwrap();
    let targets = Targets::Single(FsPath::parse("t"));
    let inputs = vec![FsPath::parse("a"), FsPath::parse("b")];
    let r = recipe.prepare(&targets, &inputs, &vec![]);
    assert_eq!(r.unwrap_err(), RecipePrepareError::InputIndexOutOfRange(2));
}

#[test]
fn target_index_out_of_range() {
    let recipe = Recipe::parse("touch $@[1]").unwrap();
    let targets = Targets::Single(FsPath::parse("t"));
    let r = recipe.prepare(&targets, &vec![], &vec![]);
    assert_eq!(r.unwrap_err(), RecipePrepareError::TargetIndexOutOfRange(1));
}

#[test]
fn unrecognised_binding() {
    let recipe = Recipe::parse("echo $nonsense").unwrap();
    let targets = Targets::Single(FsPath::parse("t"));
    let r = recipe.prepare(&targets, &vec![], &vec![]);
    assert_eq!(
        r.unwrap_err(),
        RecipePrepareError::UnrecognisedBinding("nonsense".to_string())
    );
}

#[test]
fn recipe_round_trip_without_metacharacters() {
    // Plain tokens pass through rendering untouched.
    let text = "gcc -Wall -O2 input.c";
    let recipe = Recipe::parse(text).unwrap();
    let targets = Targets::Multi(vec![]);
    let pc = recipe.prepare(&targets, &vec![], &vec![]).unwrap();
    let mut rendered = vec![pc.cmd.clone()];
    rendered.extend(pc.args.iter().cloned());
    assert_eq!(rendered, vec!["gcc", "-Wall", "-O2", "input.c"]);
}

#[test]
fn env_entries_pass_through() {
    let recipe = Recipe::parse("env").unwrap();
    let env = vec![
        EnvSpec::define("NAME".to_string(), "value".to_string()),
        EnvSpec::inherit("PATH".to_string()),
    ];
    let pc = recipe
        .prepare(&Targets::Multi(vec![]), &vec![], &env)
        .unwrap();
    assert_eq!(pc.env.len(), 2);
    assert_eq!(pc.env[0].name(), "NAME");
    assert_eq!(pc.env[1].name(), "PATH");
}
