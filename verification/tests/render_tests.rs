use task_undo::render::{render_task, u32_to_dec};

#[test]
fn decimal_rendering_exact_values() {
    assert_eq!(u32_to_dec(0), "0");
    assert_eq!(u32_to_dec(7), "7");
    assert_eq!(u32_to_dec(10), "10");
    assert_eq!(u32_to_dec(42), "42");
    assert_eq!(u32_to_dec(1000), "1000");
    assert_eq!(u32_to_dec(4294967295), "4294967295");
}

#[test]
fn task_line_rendering() {
    assert_eq!(
        render_task(3, &String::from("work"), true),
        "[\u{2714}] work (ID: 3)"
    );
    assert_eq!(
        render_task(12, &String::from("Wash clothes"), false),
        "[ ] Wash clothes (ID: 12)"
    );
}
