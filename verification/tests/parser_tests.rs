use rpn_calc::parser::{evaluate_line, get_operation, get_value, tokenize};
use rpn_calc::rpn::{Elt, Error, Op, Stack};

#[test]
fn test_evaluate_line_bool() {
    let mut stack = Stack::new();
    let s = "true".to_string();
    assert!(evaluate_line(&mut stack, &s).is_ok());
    assert_eq!(stack.pop().unwrap(), Elt::Bool(true));
    let s = "false".to_string();
    assert!(evaluate_line(&mut stack, &s).is_ok());
    assert_eq!(stack.pop().unwrap(), Elt::Bool(false));
}

#[test]
fn test_evaluate_line_int() {
    let mut stack = Stack::new();
    let s = "12".to_string();
    assert!(evaluate_line(&mut stack, &s).is_ok());
    assert_eq!(stack.pop().unwrap(), Elt::Int(12));
}

#[test]
fn test_evaluate_line_plus() {
    let mut stack = Stack::new();
    let s = "12".to_string();
    assert!(evaluate_line(&mut stack, &s).is_ok());
    let s = "13".to_string();
    assert!(evaluate_line(&mut stack, &s).is_ok());
    let s = "+".to_string();
    assert!(evaluate_line(&mut stack, &s).is_ok());
    assert_eq!(stack.pop().unwrap(), Elt::Int(25));
}

#[test]
fn test_evaluate_line_neg() {
    let mut stack = Stack::new();
    let s = "false".to_string();
    assert!(evaluate_line(&mut stack, &s).is_ok());
    let s = "~".to_string();
    assert!(evaluate_line(&mut stack, &s).is_ok());
    assert_eq!(stack.pop().unwrap(), Elt::Bool(true));
}

#[test]
fn test_evaluate_line_swap() {
    let mut stack = Stack::new();
    let s = "false".to_string();
    assert!(evaluate_line(&mut stack, &s).is_ok());
    let s = "15".to_string();
    assert!(evaluate_line(&mut stack, &s).is_ok());
    let s = "<->".to_string();
    assert!(evaluate_line(&mut stack, &s).is_ok());
    assert_eq!(stack.pop().unwrap(), Elt::Bool(false));
    assert_eq!(stack.pop().unwrap(), Elt::Int(15));
}

#[test]
fn test_evaluate_line_eq() {
    let mut stack = Stack::new();
    let s = "12".to_string();
    assert!(evaluate_line(&mut stack, &s).is_ok());
    let s = "15".to_string();
    assert!(evaluate_line(&mut stack, &s).is_ok());
    let s = "=".to_string();
    assert!(evaluate_line(&mut stack, &s).is_ok());
    assert_eq!(stack.pop().unwrap(), Elt::Bool(false));
}

#[test]
fn test_evaluate_line_rand() {
    let mut stack = Stack::new();
    let s = "12".to_string();
    assert!(evaluate_line(&mut stack, &s).is_ok());
    let s = "#".to_string();
    assert!(evaluate_line(&mut stack, &s).is_ok());
    let res = stack.pop();
    assert!(res.is_ok());
    let res = res.unwrap();
    assert!(res >= Elt::Int(0));
    assert!(res < Elt::Int(12));
}

#[test]
fn test_evaluate_line_quit() {
    let mut stack = Stack::new();
    let s = "quit".to_string();
    let res = evaluate_line(&mut stack, &s);
    assert!(res.is_err());
    if let Err(Error::Quit) = res {
    } else {
        assert!(false);
    }
}

#[test]
fn test_evaluate_line_bad_parse() {
    let mut stack = Stack::new();
    let s = "~false".to_string();
    let res = evaluate_line(&mut stack, &s);
    assert!(res.is_err());
    if let Err(Error::Syntax) = res {
    } else {
        assert!(false);
    }
}

#[test]
fn test_tokenize_spaced_line() {
    let tokens = tokenize("  12   +   13 ");
    assert_eq!(tokens, vec!["12".to_string(), "+".to_string(), "13".to_string()]);
}

#[test]
fn test_tokenize_empty_and_blank() {
    assert!(tokenize("").is_empty());
    assert!(tokenize(" \t \n ").is_empty());
}

#[test]
fn test_evaluate_line_add_single_line() {
    let mut stack = Stack::new();
    let s = "12 13 +".to_string();
    assert!(evaluate_line(&mut stack, &s).is_ok());
    assert_eq!(stack.pop().unwrap(), Elt::Int(25));
}

#[test]
fn test_evaluate_line_neg_single_line() {
    let mut stack = Stack::new();
    let s = "false ~".to_string();
    assert!(evaluate_line(&mut stack, &s).is_ok());
    assert_eq!(stack.pop().unwrap(), Elt::Bool(true));
}

#[test]
fn test_evaluate_line_swap_single_line() {
    let mut stack = Stack::new();
    let s = "false 15 <->".to_string();
    assert!(evaluate_line(&mut stack, &s).is_ok());
    assert_eq!(stack.pop().unwrap(), Elt::Bool(false));
    assert_eq!(stack.pop().unwrap(), Elt::Int(15));
}

#[test]
fn test_evaluate_line_quit_single_line_keeps_stack() {
    let mut stack = Stack::new();
    let s = "3".to_string();
    assert!(evaluate_line(&mut stack, &s).is_ok());
    let s = "quit".to_string();
    let res = evaluate_line(&mut stack, &s);
    if let Err(Error::Quit) = res {
    } else {
        assert!(false);
    }
    assert_eq!(stack.pop().unwrap(), Elt::Int(3));
}

#[test]
fn test_evaluate_line_empty_is_syntax_error() {
    let mut stack = Stack::new();
    let s = String::new();
    let res = evaluate_line(&mut stack, &s);
    if let Err(Error::Syntax) = res {
    } else {
        assert!(false);
    }
}

#[test]
fn test_get_value_literals() {
    assert_eq!(get_value("12").unwrap(), Elt::Int(12));
    assert_eq!(get_value("+5").unwrap(), Elt::Int(5));
    assert_eq!(get_value("-7").unwrap(), Elt::Int(-7));
    assert_eq!(get_value("007").unwrap(), Elt::Int(7));
    assert_eq!(get_value("2147483647").unwrap(), Elt::Int(2147483647));
    assert_eq!(get_value("-2147483648").unwrap(), Elt::Int(-2147483648));
    assert_eq!(get_value("true").unwrap(), Elt::Bool(true));
    assert_eq!(get_value("false").unwrap(), Elt::Bool(false));
}

#[test]
fn test_get_value_rejections() {
    for bad in ["", "-", "+", "2147483648", "-2147483649", "12a", "tru", "quit", "1 2"] {
        let res = get_value(bad);
        if let Err(Error::Syntax) = res {
        } else {
            assert!(false);
        }
    }
}

#[test]
fn test_get_operation_table() {
    assert_eq!(get_operation("+").unwrap(), Op::Add);
    assert_eq!(get_operation("~").unwrap(), Op::Neg);
    assert_eq!(get_operation("<->").unwrap(), Op::Swap);
    assert_eq!(get_operation("=").unwrap(), Op::Eq);
    assert_eq!(get_operation("#").unwrap(), Op::Rand);
    assert_eq!(get_operation("quit").unwrap(), Op::Quit);
    let res = get_operation("12");
    if let Err(Error::Syntax) = res {
    } else {
        assert!(false);
    }
}

#[test]
fn test_evaluate_line_stops_at_first_error() {
    let mut stack = Stack::new();
    // underflow on "+" stops the line before "7" is pushed
    let s = "5 + 7".to_string();
    let res = evaluate_line(&mut stack, &s);
    if let Err(Error::Underflow) = res {
    } else {
        assert!(false);
    }
    let res = stack.pop();
    if let Err(Error::Underflow) = res {
    } else {
        assert!(false);
    }
}
