use slvr_rust_lib::encapsulation::Encapsulates;

struct Wrapper {
    inner: u32,
}

impl Encapsulates<u32> for Wrapper {
    fn encapsulated_get(&self) -> &u32 {
        &self.inner
    }

    fn encapsulated_get_mut(&mut self) -> &mut u32 {
        &mut self.inner
    }

    fn encapsulated_set(&mut self, value: u32) {
        self.inner = value;
    }
}

#[test]
fn accessors_reach_the_inner_value() {
    let mut w = Wrapper { inner: 3 };
    assert_eq!(*w.encapsulated_get(), 3);
    *w.encapsulated_get_mut() = 4;
    assert_eq!(*w.encapsulated_get(), 4);
    w.encapsulated_set(9);
    assert_eq!(*w.encapsulated_get(), 9);
}
