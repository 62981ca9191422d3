use fluent::pseudo::transform;

#[test]
fn lib_it_works() {
    let x = transform("Hello World", false, true);
    assert_eq!(x, "Ħḗḗŀŀǿǿ Ẇǿǿřŀḓ");

    let x = transform("Hello World", false, false);
    assert_eq!(x, "Ħḗŀŀǿ Ẇǿřŀḓ");

    let x = transform("Hello World", true, false);
    assert_eq!(x, "Hǝʅʅo Moɹʅp");
}

#[test]
fn transform_keeps_what_is_not_an_ascii_letter() {
    assert_eq!(transform("1, 2: ż!", false, false), "1, 2: ż!");
    assert_eq!(transform("", true, true), "");
}
