use std::rc::Rc;

#[test]
fn rc_paragraph() {
    struct Ex {}
    impl Drop for Ex {
        fn drop(&mut self) {
            println!("Dropped")
        }
    }

    let a = Rc::new(Ex {});
    let b = a.clone();
    let c = a.clone();

    println!("Our Rc is referenced {} times", Rc::strong_count(&a));

    println!("Dropping a");
    drop(a);

    println!("Dropping b");
    drop(b);

    println!("Dropping c");
    drop(c);
}
