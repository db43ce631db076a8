use scrambler::definition::{Definition, Generator, Twist};
use scrambler::scramble::{generate, push_drawn, push_twists, render, sample_stream};

fn twists(tokens: &[&str]) -> Vec<Twist> {
    tokens.iter().map(|t| Twist(t.to_string())).collect()
}

fn generator(tokens: &[&str]) -> Generator {
    Generator(twists(tokens))
}

fn definition(depth: u32, pool: &[&[&str]]) -> Definition {
    Definition {
        n: 3,
        d: 4,
        depth,
        prefix: generator(&["L", "D"]),
        postfix: generator(&["B"]),
        generators: pool.iter().map(|g| generator(g)).collect(),
    }
}

const HEAD: &str = "# Hyperspeedcube puzzle log\n---\nversion: 1\npuzzle:\n  Rubiks4D:\n    layer_count: 3\nstate: 1\ntwists: >\n";

#[test]
fn depth_zero_gives_prefix_then_postfix() {
    let def = definition(0, &[&["R", "U"], &["F"]]);
    let mut rng = rand::rng();
    assert_eq!(sample_stream(&def, &mut rng), twists(&["L", "D", "B"]));
    assert_eq!(generate(&def, &mut rng), format!("{HEAD}  L D B\n"));
}

#[test]
fn empty_pool_gives_prefix_then_postfix() {
    let def = definition(25, &[]);
    let mut rng = rand::rng();
    assert_eq!(sample_stream(&def, &mut rng), twists(&["L", "D", "B"]));
    assert_eq!(generate(&def, &mut rng), format!("{HEAD}  L D B\n"));
}

#[test]
fn a_pool_of_one_is_drawn_every_time() {
    let def = definition(3, &[&["R", "U"]]);
    let mut rng = rand::rng();
    assert_eq!(
        sample_stream(&def, &mut rng),
        twists(&["L", "D", "R", "U", "R", "U", "R", "U", "B"])
    );
    assert_eq!(
        generate(&def, &mut rng),
        format!("{HEAD}  L D R U R U R U B\n")
    );
}

#[test]
fn the_middle_is_depth_generators_of_the_pool() {
    let pool: [&[&str]; 3] = [&["a"], &["b", "b"], &["c", "c", "c"]];
    let def = definition(200, &pool);
    let mut rng = rand::rng();
    let stream = sample_stream(&def, &mut rng);
    assert_eq!(&stream[..2], &twists(&["L", "D"])[..]);
    assert_eq!(stream.last(), Some(&Twist("B".to_string())));
    let middle = &stream[2..stream.len() - 1];
    let mut at = 0;
    let mut draws = 0;
    let mut seen = [false; 3];
    while at < middle.len() {
        let k = match middle[at].0.as_str() {
            "a" => 0,
            "b" => 1,
            "c" => 2,
            other => panic!("{other} is in no generator"),
        };
        assert_eq!(&middle[at..at + k + 1], &twists(pool[k])[..]);
        seen[k] = true;
        at += k + 1;
        draws += 1;
    }
    assert_eq!(draws, 200);
    assert_eq!(seen, [true; 3]);
}

#[test]
fn draws_differ_from_run_to_run() {
    let pool: [&[&str]; 4] = [&["a"], &["b"], &["c"], &["d"]];
    let def = definition(64, &pool);
    let mut rng = rand::rng();
    let first = sample_stream(&def, &mut rng);
    let mut differs = false;
    for _ in 0..8 {
        differs = differs || sample_stream(&def, &mut rng) != first;
    }
    assert!(differs);
}

#[test]
fn an_empty_generator_adds_nothing() {
    let def = definition(5, &[&[]]);
    let mut rng = rand::rng();
    assert_eq!(sample_stream(&def, &mut rng), twists(&["L", "D", "B"]));
}

#[test]
fn a_draw_adds_its_twists_in_order() {
    let mut stream = twists(&["x"]);
    let g = generator(&["R", "U", "R'"]);
    push_drawn(&mut stream, Some(&g));
    assert_eq!(stream, twists(&["x", "R", "U", "R'"]));
    push_drawn(&mut stream, None);
    assert_eq!(stream, twists(&["x", "R", "U", "R'"]));
    push_drawn(&mut stream, Some(&generator(&[])));
    assert_eq!(stream, twists(&["x", "R", "U", "R'"]));
    push_twists(&mut stream, &twists(&["y", "z"]));
    assert_eq!(stream, twists(&["x", "R", "U", "R'", "y", "z"]));
}

#[test]
fn the_log_of_no_twists_is_the_head() {
    assert_eq!(render(4, 3, &[]), HEAD);
}

#[test]
fn the_log_gives_dimension_and_layers_as_plain_numbers() {
    assert_eq!(
        render(0, 255, &twists(&["R"])),
        "# Hyperspeedcube puzzle log\n---\nversion: 1\npuzzle:\n  Rubiks0D:\n    layer_count: 255\nstate: 1\ntwists: >\n  R\n"
    );
    assert_eq!(
        render(17, 10, &[]),
        "# Hyperspeedcube puzzle log\n---\nversion: 1\npuzzle:\n  Rubiks17D:\n    layer_count: 10\nstate: 1\ntwists: >\n"
    );
}

#[test]
fn the_log_indents_every_wrapped_line() {
    let stream = twists(&["R2"; 60]);
    let full = ["R2"; 23].join(" ");
    let rest = ["R2"; 14].join(" ");
    assert_eq!(
        render(4, 3, &stream),
        format!("{HEAD}  {full}\n  {full}\n  {rest}\n")
    );
}

#[test]
fn a_parsed_definition_is_scrambled() {
    let def = Definition::parse(
        "n: 2\nd: 3\ndepth: 4 // four draws\nprefix: x\npostfix: y z\ngenerators:\nR U R' U'\n",
    )
    .unwrap();
    let mut rng = rand::rng();
    assert_eq!(
        generate(&def, &mut rng),
        "# Hyperspeedcube puzzle log\n---\nversion: 1\npuzzle:\n  Rubiks3D:\n    layer_count: 2\nstate: 1\ntwists: >\n  x R U R' U' R U R' U' R U R' U' R U R' U' y z\n"
    );
}
