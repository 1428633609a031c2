use rpn_calc::rpn::{Elt, Error, Op, Stack};

#[test]
fn test_pop_empty1() {
    let mut s = Stack::new();

    let res = s.pop();
    assert!(res.is_err());
    if let Err(Error::Underflow) = res {
    } else {
        assert!(false);
    }
}

#[test]
fn test_pop_empty2() {
    let mut s = Stack::new();
    s.push(Elt::Int(0)).unwrap();

    let res = s.pop();
    assert!(res.is_ok());

    let res = s.pop();
    assert!(res.is_err());
    if let Err(Error::Underflow) = res {
    } else {
        assert!(false);
    }
}

#[test]
fn test_eval_add1() {
    let mut s = Stack::new();
    s.push(Elt::Int(1)).unwrap();
    s.push(Elt::Int(1)).unwrap();

    assert!(s.eval(Op::Add).is_ok());
    assert_eq!(s.pop().unwrap(), Elt::Int(2));
}

#[test]
fn test_eval_add2() {
    let mut s = Stack::new();
    s.push(Elt::Int(1)).unwrap();
    s.push(Elt::Bool(false)).unwrap();

    let res = s.eval(Op::Add);
    assert!(res.is_err());
    if let Err(Error::Type) = res {
    } else {
        assert!(false);
    }
}

#[test]
fn test_eval_add3() {
    let mut s = Stack::new();
    s.push(Elt::Bool(true)).unwrap();
    s.push(Elt::Bool(false)).unwrap();

    let res = s.eval(Op::Add);
    assert!(res.is_err());
    if let Err(Error::Type) = res {
    } else {
        assert!(false);
    }
}

#[test]
fn test_eval_eq1() {
    let mut s = Stack::new();
    s.push(Elt::Int(1)).unwrap();
    s.push(Elt::Int(1)).unwrap();

    assert!(s.eval(Op::Eq).is_ok());
    assert_eq!(s.pop().unwrap(), Elt::Bool(true));
}

#[test]
fn test_eval_eq2() {
    let mut s = Stack::new();
    s.push(Elt::Int(1)).unwrap();
    s.push(Elt::Bool(false)).unwrap();

    let res = s.eval(Op::Eq);
    assert!(res.is_err());
    if let Err(Error::Type) = res {
    } else {
        assert!(false);
    }
}

#[test]
fn test_eval_neg1() {
    let mut s = Stack::new();
    s.push(Elt::Int(1)).unwrap();
    assert!(s.eval(Op::Neg).is_ok());
    assert_eq!(s.pop().unwrap(), Elt::Int(-1));
}

#[test]
fn test_eval_neg2() {
    let mut s = Stack::new();
    s.push(Elt::Bool(false)).unwrap();
    assert!(s.eval(Op::Neg).is_ok());
    assert_eq!(s.pop().unwrap(), Elt::Bool(true));
}

#[test]
fn test_eval_swap1() {
    let mut s = Stack::new();
    s.push(Elt::Int(1)).unwrap();
    s.push(Elt::Bool(false)).unwrap();

    assert!(s.eval(Op::Swap).is_ok());
    assert_eq!(s.pop().unwrap(), Elt::Int(1));
    assert_eq!(s.pop().unwrap(), Elt::Bool(false));

    let res = s.pop();
    assert!(res.is_err());
    if let Err(Error::Underflow) = res {
    } else {
        assert!(false);
    }
}

#[test]
fn test_eval_swap2() {
    let mut s = Stack::new();
    s.push(Elt::Bool(false)).unwrap();

    let res = s.eval(Op::Swap);
    assert!(res.is_err());
    if let Err(Error::Underflow) = res {
    } else {
        assert!(false);
    }
}

#[test]
fn test_eval_rand1() {
    let mut s = Stack::new();
    let i = 20;
    s.push(Elt::Int(i)).unwrap();

    assert!(s.eval(Op::Rand).is_ok());

    let rand_val = s.pop().unwrap();
    assert!(rand_val >= Elt::Int(0));
    assert!(rand_val < Elt::Int(i));
}

#[test]
fn test_eval_rand2() {
    let mut s = Stack::new();
    s.push(Elt::Bool(false)).unwrap();

    let res = s.eval(Op::Rand);
    assert!(res.is_err());
    if let Err(Error::Type) = res {
    } else {
        assert!(false);
    }
}

#[test]
fn test_eval_quit() {
    let mut s = Stack::new();

    let res = s.eval(Op::Quit);
    assert!(res.is_err());
    if let Err(Error::Quit) = res {
    } else {
        assert!(false);
    }
}

#[test]
fn test_lifo_push_then_pop() {
    let mut s = Stack::new();
    s.push(Elt::Int(7)).unwrap();
    s.push(Elt::Bool(true)).unwrap();
    s.push(Elt::Int(-3)).unwrap();
    assert_eq!(s.pop().unwrap(), Elt::Int(-3));
    assert_eq!(s.pop().unwrap(), Elt::Bool(true));
    assert_eq!(s.pop().unwrap(), Elt::Int(7));
}

#[test]
fn test_eval_rand_bound_one() {
    let mut s = Stack::new();
    s.push(Elt::Int(1)).unwrap();
    assert!(s.eval(Op::Rand).is_ok());
    assert_eq!(s.pop().unwrap(), Elt::Int(0));
}

#[test]
fn test_eval_rand_degenerate_bound() {
    let mut s = Stack::new();
    s.push(Elt::Int(0)).unwrap();
    assert!(s.eval(Op::Rand).is_ok());
    assert_eq!(s.pop().unwrap(), Elt::Int(0));

    s.push(Elt::Int(-5)).unwrap();
    assert!(s.eval(Op::Rand).is_ok());
    assert_eq!(s.pop().unwrap(), Elt::Int(0));
}

#[test]
fn test_eval_eq_bools() {
    let mut s = Stack::new();
    s.push(Elt::Bool(true)).unwrap();
    s.push(Elt::Bool(true)).unwrap();
    assert!(s.eval(Op::Eq).is_ok());
    assert_eq!(s.pop().unwrap(), Elt::Bool(true));

    s.push(Elt::Bool(true)).unwrap();
    s.push(Elt::Bool(false)).unwrap();
    assert!(s.eval(Op::Eq).is_ok());
    assert_eq!(s.pop().unwrap(), Elt::Bool(false));
}

#[test]
fn test_eval_quit_keeps_stack() {
    let mut s = Stack::new();
    s.push(Elt::Int(4)).unwrap();
    s.push(Elt::Bool(false)).unwrap();

    let res = s.eval(Op::Quit);
    if let Err(Error::Quit) = res {
    } else {
        assert!(false);
    }
    assert_eq!(s.pop().unwrap(), Elt::Bool(false));
    assert_eq!(s.pop().unwrap(), Elt::Int(4));
}

#[test]
fn test_eval_add_underflow_discards_operand() {
    let mut s = Stack::new();
    s.push(Elt::Int(9)).unwrap();

    let res = s.eval(Op::Add);
    if let Err(Error::Underflow) = res {
    } else {
        assert!(false);
    }
    // the one successfully popped operand stays popped
    let res = s.pop();
    if let Err(Error::Underflow) = res {
    } else {
        assert!(false);
    }
}
