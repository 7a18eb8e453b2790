#[test]
fn lib_it_works() {
    assert_eq!(2 + 2, 4);
}

#[test]
fn does_it() {
    assert!(true);
    println!("Showing");
}

#[test]
fn it_works() {
    assert_eq!(2 + 2, 4);
}
