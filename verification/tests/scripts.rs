use bgawk::scripts::{needs_readings, substitute_readings, Readings};
use bgawk::Code;

fn readings() -> Readings {
    Readings {
        x: "1".to_string(),
        y: "2".to_string(),
        rx: "3".to_string(),
        ry: "4".to_string(),
        rot: "0.5".to_string(),
        vx: "-6".to_string(),
        vy: "7".to_string(),
        va: "8".to_string(),
        mass: "100".to_string(),
        inertia: "200".to_string(),
    }
}

#[test]
fn dollar_marks_code_that_needs_readings() {
    assert!(needs_readings("print($x)"));
    assert!(needs_readings("$"));
    assert!(!needs_readings("print(1)"));
    assert!(!needs_readings(""));
}

#[test]
fn every_placeholder_is_replaced() {
    let code = "$x $y $rx $ry $rot $vx $vy $va $mass $inertia";
    assert_eq!(substitute_readings(code, &readings()), "1 2 3 4 0.5 -6 7 8 100 200");
}

#[test]
fn repeated_placeholders_are_all_replaced() {
    assert_eq!(substitute_readings("$x+$x*$x", &readings()), "1+1*1");
}

#[test]
fn unknown_placeholders_stay() {
    assert_eq!(substitute_readings("$z $ $xx", &readings()), "$z $ 1x");
}

#[test]
fn placeholders_are_replaced_in_order() {
    // A reading that holds a placeholder is replaced again by the steps that
    // come after its own, and left as it is by the steps before.
    let mut r = readings();
    r.x = "$mass".to_string();
    assert_eq!(substitute_readings("$x", &r), "100");
    r.mass = "$x".to_string();
    assert_eq!(substitute_readings("$mass", &r), "$x");
}

#[test]
fn code_without_dollar_is_unchanged() {
    let code = "let a = sin(1.0) * 2;";
    assert!(!needs_readings(code));
    assert_eq!(substitute_readings(code, &readings()), code);
}

#[test]
fn empty_code_default() {
    let c: Code = Default::default();
    assert_eq!(c.0, "");
}
