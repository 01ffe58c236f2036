use core::ops::ControlFlow;
use slvr_rust_lib::errors::OptionalResult;

fn is_present(r: &OptionalResult<u32, String>, v: u32) -> bool {
    matches!(r, OptionalResult::Present(x) if *x == v)
}

fn is_failure(r: &OptionalResult<u32, String>, e: &str) -> bool {
    matches!(r, OptionalResult::Failure(x) if x == e)
}

#[test]
fn from_result() {
    let ok: Result<u32, String> = Ok(5);
    assert!(is_present(&OptionalResult::from(ok), 5));
    let err: Result<u32, String> = Err(String::from("boom"));
    assert!(is_failure(&OptionalResult::from(err), "boom"));
}

#[test]
fn from_option() {
    let some: Option<u32> = Some(7);
    let r: OptionalResult<u32, String> = OptionalResult::from(some);
    assert!(is_present(&r, 7));
    let none: Option<u32> = None;
    let r: OptionalResult<u32, String> = OptionalResult::from(none);
    assert!(matches!(r, OptionalResult::Absent));
}

#[test]
fn from_option_of_result() {
    let v: Option<Result<u32, String>> = Some(Ok(3));
    assert!(is_present(&OptionalResult::from(v), 3));
    let v: Option<Result<u32, String>> = Some(Err(String::from("bad")));
    assert!(is_failure(&OptionalResult::from(v), "bad"));
    let v: Option<Result<u32, String>> = None;
    let r: OptionalResult<u32, String> = OptionalResult::from(v);
    assert!(matches!(r, OptionalResult::Absent));
}

#[test]
fn from_result_of_option() {
    let v: Result<Option<u32>, String> = Ok(Some(9));
    assert!(is_present(&OptionalResult::from(v), 9));
    let v: Result<Option<u32>, String> = Ok(None);
    let r: OptionalResult<u32, String> = OptionalResult::from(v);
    assert!(matches!(r, OptionalResult::Absent));
    let v: Result<Option<u32>, String> = Err(String::from("no"));
    assert!(is_failure(&OptionalResult::from(v), "no"));
}

#[test]
fn branch_continues_on_present() {
    let r: OptionalResult<u32, String> = OptionalResult::Present(4);
    match r.branch() {
        ControlFlow::Continue(v) => assert_eq!(v, 4),
        ControlFlow::Break(_) => panic!("present must continue"),
    }
}

#[test]
fn branch_breaks_on_failure_and_absence() {
    let r: OptionalResult<u32, String> = OptionalResult::Failure(String::from("halt"));
    match r.branch() {
        ControlFlow::Break(OptionalResult::Failure(e)) => assert_eq!(e, "halt"),
        _ => panic!("failure must break with the failure"),
    }
    let r: OptionalResult<u32, String> = OptionalResult::Absent;
    match r.branch() {
        ControlFlow::Break(OptionalResult::Absent) => {}
        _ => panic!("absence must break with the absence"),
    }
}

#[test]
fn from_output_wraps_value() {
    let r: OptionalResult<u32, String> = OptionalResult::from_output(11);
    assert!(is_present(&r, 11));
}

#[test]
fn residuals_rebuild_the_outcome() {
    let failure = match OptionalResult::<u32, String>::Failure(String::from("x")).branch() {
        ControlFlow::Break(residual) => residual,
        ControlFlow::Continue(_) => panic!("failure must break"),
    };
    let r: OptionalResult<u32, String> = OptionalResult::from_residual(failure);
    assert!(is_failure(&r, "x"));

    let absent = match OptionalResult::<u32, String>::Absent.branch() {
        ControlFlow::Break(residual) => residual,
        ControlFlow::Continue(_) => panic!("absence must break"),
    };
    let r: OptionalResult<u32, String> = OptionalResult::from_residual(absent);
    assert!(matches!(r, OptionalResult::Absent));

    let err: Result<core::convert::Infallible, String> = Err(String::from("y"));
    let r: OptionalResult<u32, String> = OptionalResult::from_result_residual(err);
    assert!(is_failure(&r, "y"));

    let none: Option<core::convert::Infallible> = None;
    let r: OptionalResult<u32, String> = OptionalResult::from_option_residual(none);
    assert!(matches!(r, OptionalResult::Absent));
}
