//! End-to-end scenarios: literal sources with their expected emissions.

use lichen::parse::Parser;
use lichen::var::Var;
use lichen::num::{Num, num_from_chars, num_to_chars};
use lichen::eval::Evaluator;
use lichen::source::Next;
use lichen::text::str_chars;

fn num(m: i64, s: u32) -> Var {
    Var::Num(Num { m, s })
}

#[test]
fn arithmetic_mutation() {
    let src = "def global ;
root
  @global.coins 1
  emit \"step\"
  @global.coins + 5
  emit global.coins
;";
    let mut env = Parser::parse_blocks(src).expect("parse").into_env();
    let mut ev = Evaluator::new();
    let (vars, _) = ev.next(&mut env).unwrap();
    assert_eq!(vars[0], Var::String("step".to_owned()));
    let (vars, _) = ev.next(&mut env).unwrap();
    assert_eq!(vars[0], num(6, 0));
}

#[test]
fn when_dispatch() {
    let src = "root
  needs_coins global.coins < 1
  has_no_name !global.name
  when { needs_coins @global.coins + 2 ,
         has_no_name @global.name \"new-name\" }
  emit global.name global.coins
;
def global
  coins 0
;";
    let mut env = Parser::parse_blocks(src).expect("parse").into_env();
    let mut ev = Evaluator::new();
    let (vars, _) = ev.last(&mut env).unwrap();
    assert_eq!(vars[0], Var::String("new-name".to_owned()));
    assert_eq!(vars[1], num(2, 0));
}

#[test]
fn or_fall_through() {
    let src = "root
  if !global.drunk \"not drunk\"
  or \"is drunk\"
  @global.drunk true
  if !global.drunk \"not drunk\"
  or \"is drunk\"
;
def global drunk false ;";
    let mut env = Parser::parse_blocks(src).expect("parse").into_env();
    let mut ev = Evaluator::new();
    let (vars, _) = ev.next(&mut env).unwrap();
    assert_eq!(vars[0], Var::String("not drunk".to_owned()));
    let (vars, _) = ev.next(&mut env).unwrap();
    assert_eq!(vars[0], Var::String("is drunk".to_owned()));
}

#[test]
fn call_back_restart() {
    let src = "root
  next:call step2
  next:restart
;
step2
  next:back
  emit \"something\"
;";
    let mut env = Parser::parse_blocks(src).expect("parse").into_env();
    let mut ev = Evaluator::new();
    let (_, next) = ev.next(&mut env).unwrap();
    assert_eq!(next, Some(Next::Call("step2".to_owned())));
    let (_, next) = ev.next(&mut env).unwrap();
    assert_eq!(next, Some(Next::Back));
    let (_, next) = ev.next(&mut env).unwrap();
    assert_eq!(next, Some(Next::Restart(None)));
}

#[test]
fn select_choices() {
    let src = "root
  next:select { \"Head to Store?\" store,
                5 hike,
                \"Leave the town?\" exit-town }
;";
    let mut env = Parser::parse_blocks(src).expect("parse").into_env();
    let mut ev = Evaluator::new();
    let (_, next) = ev.next(&mut env).unwrap();
    match next.expect("a select") {
        Next::Select(m) => {
            assert_eq!(m.len(), 3);
            assert!(m.contains_key("Head to Store?"));
            assert!(m.contains_key("5"));
            assert!(m.contains_key("Leave the town?"));
        }
        _ => panic!("expected a select"),
    }
    ev.advance("store".to_owned());
}

#[test]
fn string_interpolation() {
    let src = "def global name \"Io\" size 1.5 ;
root
  has_weight global.size < 5
  if has_weight \"you weigh `global.size kg, `global.name\"
;";
    let mut env = Parser::parse_blocks(src).expect("parse").into_env();
    let mut ev = Evaluator::new();
    let (vars, _) = ev.last(&mut env).unwrap();
    assert_eq!(vars[0], Var::String("you weigh 1.5 kg, Io".to_owned()));
}

#[test]
fn number_text_round_trip() {
    for text in ["0", "6", "1.5", "-2.25", "0.05", "101"] {
        let cs = str_chars(text);
        let n = num_from_chars(&cs).expect("a number");
        let back: String = num_to_chars(n).into_iter().collect();
        assert_eq!(back, text);
    }
    assert!(num_from_chars(&str_chars("not-a-number")).is_none());
    assert!(num_from_chars(&str_chars("1.2.3")).is_none());
}

#[test]
fn arithmetic_exact() {
    let a = Num { m: 15, s: 1 };
    let b = Num { m: 5, s: 1 };
    assert_eq!(a.checked_add(b), Some(Num { m: 2, s: 0 }));
    assert_eq!(a.checked_sub(b), Some(Num { m: 1, s: 0 }));
    assert_eq!(a.checked_mul(b), Some(Num { m: 75, s: 2 }));
    assert_eq!(Num { m: 6, s: 0 }.checked_div(Num { m: 2, s: 0 }), Some(Num { m: 3, s: 0 }));
    assert_eq!(Num { m: 1, s: 0 }.checked_div(Num { m: 0, s: 0 }), None);
    assert!(a.lt(Num { m: 2, s: 0 }));
    assert!(Num { m: 2, s: 0 }.gt(a));
}

#[test]
fn parse_errors() {
    assert!(Parser::parse_blocks("root\n or \"too early\"\n;").is_err());
    assert!(Parser::parse_blocks(";").is_err());
    assert!(Parser::parse_blocks("root\n when {}\n;").is_err());
    assert!(Parser::parse_blocks("root\n emit\n;").is_err());
    assert!(Parser::parse_blocks("root\n w 1 ? 2\n;").is_err());
}
