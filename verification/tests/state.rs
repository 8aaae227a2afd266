use lichen::parse::Parser;
use lichen::var::Var;
use lichen::num::Num;
use lichen::eval::Evaluator;
use lichen::fun::FunRegistry;
use lichen::def::Def;

struct Summing;

impl FunRegistry for Summing {
    fn call(&mut self, name: &str, args: &Vec<Var>, def: &Def) -> Option<Var> {
        if name != "inc" {
            return None;
        }
        let mut total = Num { m: 0, s: 0 };
        for a in args.iter() {
            if let Ok(v) = a.get_num(def) {
                total = total.checked_add(v).unwrap();
            }
        }
        Some(Var::Num(total))
    }
}

fn num(m: i64, s: u32) -> Var {
    Var::Num(Num { m, s })
}

#[test]
fn state_mut() {
    let src = "\n
def global\n
;\n
\n
root\n
    @global.coins 1\n
    emit \"step\"\n
    @global.coins + 5\n
    emit global.coins\n
;";
    let mut env = Parser::parse_blocks(src).expect("ERROR: Unable to parse source").into_env();
    let mut ev = Evaluator::new();
    let (vars, _) = ev.last(&mut env).unwrap();
    assert_eq!(vars[0], num(6, 0));
}

#[test]
fn parse_cust_fn() {
    let src = "root\n
    @root.five (inc) 1 2 3\n
    emit root.five\n
;\n
def root\n
    five 5\n
;";
    let mut env = Parser::parse_blocks(src)
        .expect("ERROR: Unable to parse source")
        .into_env()
        .with_funs(Summing);
    let mut ev = Evaluator::new();
    let (vars, _) = ev.last(&mut env).unwrap();
    assert_eq!(vars[0], num(6, 0));
}

#[test]
fn parse_def_block() {
    let src = "root\n
    emit global.name global.size\n
;\n
\n
def global\n
    name \"my-game\"\n
    size 1.5\n
;";
    let mut env = Parser::parse_blocks(src).expect("ERROR: Unable to parse source").into_env();
    let mut ev = Evaluator::new();
    let (vars, _) = ev.next(&mut env).unwrap();
    assert_eq!(vars[0], Var::String("my-game".to_owned()));
    assert_eq!(vars[1], num(15, 1));
}

#[test]
fn validate_def_block() {
    let src = "root\n
    @global.size + 0.5\n
    @global.name \"other-game\"\n
    emit global.name global.size\n\n
;\n
\n
def global\n
    name \"my-game\"\n
    size 1.5\n
;";
    let mut env = Parser::parse_blocks(src).expect("ERROR: Unable to parse source").into_env();
    let mut ev = Evaluator::new();
    let (vars, _) = ev.last(&mut env).unwrap();
    assert_eq!(vars[0], Var::String("other-game".to_owned()));
    assert_eq!(vars[1], num(2, 0));
}

#[test]
fn validate_when_block() {
    let src = "root\n
    needs_coins global.coins < 1\n
    when {needs_coins @global.coins + 2, \n
         !global.name @global.name \"new-name\"}\n
    emit global.name global.coins\n
;\n
def global\n
    coins 0\n
;\n";
    let mut env = Parser::parse_blocks(src).expect("ERROR: Unable to parse source").into_env();
    let mut ev = Evaluator::new();
    let (vars, _) = ev.last(&mut env).unwrap();
    assert_eq!(vars[1], num(2, 0));
    assert_eq!(vars[0], Var::String("new-name".to_owned()));
}

#[test]
fn save_state() {
    let src = "root\n
    emit root.coins\n
    @root.coins (inc) \"coins\" 1 2 3\n
    next:await no-where\n
    emit root.coins\n
;\n
def root\n
coins 0\n
;";
    let mut env = Parser::parse_blocks(src)
        .expect("ERROR: Unable to parse source")
        .into_env()
        .with_funs(Summing);
    let state = {
        let mut ev = Evaluator::new();
        let (vars, _) = ev.next(&mut env).unwrap();
        assert_eq!(vars[0], num(0, 0));
        ev.save()
    };
    let state = {
        let mut ev = state.to_eval();
        let _ = ev.next(&mut env).unwrap();
        ev.save()
    };
    let mut ev = state.to_eval();
    let (vars, _) = ev.next(&mut env).unwrap();
    assert_eq!(vars[0], num(6, 0));
}

#[test]
fn validate_or_block() {
    let src = "root\n
    if !global.drunk \"not drunk\"\n
    or \"is drunk\"\n
\n
    @global.drunk true\n
\n
    if !global.drunk \"not drunk\"\n
    or \"is drunk\"\n
;\n
\n
def global\n
    drunk false
;";
    let mut env = Parser::parse_blocks(src).expect("ERROR: Unable to parse source").into_env();
    let mut ev = Evaluator::new();
    let (vars, _) = ev.next(&mut env).unwrap();
    assert_eq!(vars[0], Var::String("not drunk".to_owned()));
    let (vars, _) = ev.next(&mut env).unwrap();
    assert_eq!(vars[0], Var::String("is drunk".to_owned()));
}
