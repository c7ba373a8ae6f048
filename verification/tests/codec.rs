use enum_vec::{EnumLike, EnumValues, PackedU16, PackedU8};

fn check_values_of<T: Clone + ::std::fmt::Debug + PartialEq + EnumLike>(x: usize) {
    let mut seen = vec![];
    let mut counter = 0;
    let mut values = T::values();
    while let Some(i) = values.next() {
        seen.push(i.clone());
        let idx = i.clone().to_discr();
        assert_eq!(i, T::from_discr(idx));
        assert_eq!(idx, T::from_discr(idx).to_discr());
        counter += 1;
    }

    assert_eq!(counter, T::NUM_VARIANTS);

    // check that each element in seen only appears once
    for i in 0..counter {
        for j in i + 1..counter {
            if seen[i] == seen[j] {
                panic!("Duplicate entry for {:?}", seen[i]);
            }
        }
    }

    assert_eq!(x, T::NUM_VARIANTS);
}

#[derive(Copy, Clone, Debug, PartialEq, Eq)]
enum ABC {
    A,
    B,
    C,
}

impl EnumLike for ABC {
    const NUM_VARIANTS: usize = 3;
    fn to_discr(self) -> usize {
        match self {
            ABC::A => 0,
            ABC::B => 1,
            ABC::C => 2,
        }
    }
    fn from_discr(x: usize) -> Self {
        match x {
            0 => ABC::A,
            1 => ABC::B,
            2 => ABC::C,
            _ => panic!("Enum ABC has no variant {}", x),
        }
    }
}

#[derive(Copy, Clone, Debug, PartialEq, Eq)]
struct Digit {
    x: u8, // x >= 0 && x <= 9
}

impl EnumLike for Digit {
    const NUM_VARIANTS: usize = 10;
    fn to_discr(self) -> usize {
        self.x as usize
    }
    fn from_discr(x: usize) -> Self {
        let x = x as u8;
        Self { x }
    }
}

#[derive(Copy, Clone, Debug, PartialEq, Eq)]
struct TwoDigits {
    tens: Digit,
    ones: Digit,
}

impl EnumLike for TwoDigits {
    const NUM_VARIANTS: usize = Digit::NUM_VARIANTS * Digit::NUM_VARIANTS;
    fn to_discr(self) -> usize {
        self.tens.to_discr() * Digit::NUM_VARIANTS + self.ones.to_discr()
    }
    fn from_discr(x: usize) -> Self {
        let tens = Digit::from_discr(x / Digit::NUM_VARIANTS);
        let ones = Digit::from_discr(x % Digit::NUM_VARIANTS);

        Self { tens, ones }
    }
}

#[derive(Copy, Clone, Debug, PartialEq, Eq)]
struct ThreeDigits {
    hundreds: Digit,
    tens: Digit,
    ones: Digit,
}

impl EnumLike for ThreeDigits {
    const NUM_VARIANTS: usize = Digit::NUM_VARIANTS * Digit::NUM_VARIANTS * Digit::NUM_VARIANTS;
    fn to_discr(self) -> usize {
        self.hundreds.to_discr() * Digit::NUM_VARIANTS * Digit::NUM_VARIANTS
            + self.tens.to_discr() * Digit::NUM_VARIANTS
            + self.ones.to_discr()
    }
    fn from_discr(x: usize) -> Self {
        let hundreds = Digit::from_discr(x / (Digit::NUM_VARIANTS * Digit::NUM_VARIANTS));
        let tens = Digit::from_discr((x / Digit::NUM_VARIANTS) % Digit::NUM_VARIANTS);
        let ones = Digit::from_discr(x % Digit::NUM_VARIANTS);

        Self { hundreds, tens, ones }
    }
}

#[test]
fn values_of() {
    let mut a = ABC::values();
    assert_eq!(a.next(), Some(ABC::A));
    assert_eq!(a.next(), Some(ABC::B));
    assert_eq!(a.next(), Some(ABC::C));
    assert_eq!(a.next(), None);

    let b = Digit::values();
    assert_eq!(b.count(), 10);

    let c = TwoDigits::values();
    assert_eq!(c.count(), 100);
}

#[test]
fn check_builtin_impls() {
    check_values_of::<()>(1);
    check_values_of::<bool>(2);
    check_values_of::<Option<()>>(2);
    check_values_of::<Option<bool>>(3);
    check_values_of::<Result<(), ()>>(2);
    check_values_of::<Result<bool, ()>>(3);
    check_values_of::<Result<(), bool>>(3);
    check_values_of::<Result<bool, bool>>(4);

    check_values_of::<((),)>(1);
    check_values_of::<((), ())>(1);
    check_values_of::<((), (), ())>(1);
    check_values_of::<(bool,)>(2);
    check_values_of::<(bool, bool)>(2 * 2);
    check_values_of::<(bool, bool, bool)>(2 * 2 * 2);
}

// Helper function to convert from u8 to [bool; N]
fn as_bool_vec(mut x: u8, n: usize) -> Vec<bool> {
    let mut v = vec![];
    while x != 0 {
        v.push((x & 1) == 1);
        x = x >> 1;
    }

    while v.len() < n {
        v.push(false);
    }

    v
}

#[test]
fn check_array_impls() {
    let mut a = <[bool; 0]>::values();
    for i in 0..(1 << 0) {
        assert_eq!(a.next().unwrap(), *as_bool_vec(i, 0));
    }
    assert_eq!(a.next(), None);

    let mut a = <[bool; 1]>::values();
    for i in 0..(1 << 1) {
        assert_eq!(a.next().unwrap(), *as_bool_vec(i, 1));
    }
    assert_eq!(a.next(), None);

    let mut a = <[bool; 2]>::values();
    for i in 0..(1 << 2) {
        assert_eq!(a.next().unwrap(), *as_bool_vec(i, 2));
    }
    assert_eq!(a.next(), None);

    let mut a = <[bool; 3]>::values();
    for i in 0..(1 << 3) {
        assert_eq!(a.next().unwrap(), *as_bool_vec(i, 3));
    }
    assert_eq!(a.next(), None);

    let mut a = <[bool; 4]>::values();
    for i in 0..(1 << 4) {
        assert_eq!(a.next().unwrap(), *as_bool_vec(i, 4));
    }
    assert_eq!(a.next(), None);
}

#[test]
fn check_tuple_impls() {
    let mut a = <(bool, bool, bool, bool)>::values();
    while let Some(i) = a.next() {
        println!("{:?}", i);
        println!("{:?}", i.to_discr());
    }
}

#[test]
fn check_tuple_array_equivalency() {
    let mut a = <(bool, bool, bool, bool)>::values();
    let mut b = <[[bool; 2]; 2]>::values();
    for _ in 0..(1 << 4) {
        let va = a.next().unwrap();
        let vb = b.next().unwrap();

        assert_eq!(va.0, vb[0][0]);
        assert_eq!(va.1, vb[0][1]);
        assert_eq!(va.2, vb[1][0]);
        assert_eq!(va.3, vb[1][1]);
    }

    assert_eq!(a.next(), None);
    assert_eq!(b.next(), None);
}

#[test]
fn check_test_impls() {
    check_values_of::<ABC>(3);
    check_values_of::<Digit>(10);
    check_values_of::<TwoDigits>(100);
}

#[test]
fn nested_option_bool() {
    type NestedOptionBool = Option<Option<Option<bool>>>;
    check_values_of::<NestedOptionBool>(5);
    let mut a = NestedOptionBool::values();

    // The ordering is important
    assert_eq!(a.next().unwrap(), None);
    assert_eq!(a.next().unwrap(), Some(None));
    assert_eq!(a.next().unwrap(), Some(Some(None)));
    assert_eq!(a.next().unwrap(), Some(Some(Some(false))));
    assert_eq!(a.next().unwrap(), Some(Some(Some(true))));
    assert_eq!(a.next(), None);
}

#[test]
fn result_option_unit() {
    type Abomination = Result<Result<Option<()>, bool>, Result<(), Option<bool>>>;

    check_values_of::<Abomination>(8);
    assert_eq!(Abomination::values().nth(1).unwrap(), Ok(Ok(Some(()))));
    assert_eq!(Abomination::values().last().unwrap(), Err(Err(Some(true))));
}

#[test]
fn packed_u8_u16() {
    let a = false;
    let a_p8 = PackedU8::new(a.clone());
    assert_eq!(a, a_p8.get());

    let b = ThreeDigits::values().nth(123);
    let b_p16 = PackedU16::new(b.clone());
    assert_eq!(b, b_p16.get());
}

#[test]
fn lib_values_of() {
    let mut a = ABC::values();
    assert_eq!(a.next(), Some(ABC::A));
    assert_eq!(a.next(), Some(ABC::B));
    assert_eq!(a.next(), Some(ABC::C));
    assert_eq!(a.next(), None);

    let b = Digit::values();
    assert_eq!(b.count(), 10);

    let c = TwoDigits::values();
    assert_eq!(c.count(), 100);

    let d = ThreeDigits::values();
    assert_eq!(d.count(), 1000);
}

#[test]
fn lib_check_builtin_impls() {
    check_values_of::<()>(1);
    check_values_of::<bool>(2);
    check_values_of::<Option<()>>(2);
    check_values_of::<Option<bool>>(3);
    check_values_of::<Result<(), ()>>(2);
    check_values_of::<Result<bool, ()>>(3);
    check_values_of::<Result<(), bool>>(3);
    check_values_of::<Result<bool, bool>>(4);

    check_values_of::<((),)>(1);
    check_values_of::<((), ())>(1);
    check_values_of::<((), (), ())>(1);
    check_values_of::<(bool,)>(2);
    check_values_of::<(bool, bool)>(2 * 2);
    check_values_of::<(bool, bool, bool)>(2 * 2 * 2);

    check_values_of::<((), (), (), ())>(1);
    check_values_of::<(bool, bool, bool, bool)>(2 * 2 * 2 * 2);
    check_values_of::<[bool; 0]>(1);
    check_values_of::<[bool; 1]>(2);
    check_values_of::<[bool; 2]>(2 * 2);
    check_values_of::<[bool; 3]>(2 * 2 * 2);
    check_values_of::<[bool; 4]>(2 * 2 * 2 * 2);
}

#[test]
fn lib_check_test_impls() {
    check_values_of::<ABC>(3);
    check_values_of::<Digit>(10);
    check_values_of::<TwoDigits>(100);
    check_values_of::<ThreeDigits>(1000);
}

#[test]
fn lib_nested_option_bool() {
    type NestedOptionBool = Option<Option<Option<bool>>>;
    check_values_of::<NestedOptionBool>(5);
    let mut a = NestedOptionBool::values();

    // The variant without data comes first at every level
    assert_eq!(a.next().unwrap().to_discr(), 0);
    assert_eq!(NestedOptionBool::from_discr(0), None);
    assert_eq!(NestedOptionBool::from_discr(1), Some(None));
    assert_eq!(NestedOptionBool::from_discr(2), Some(Some(None)));
    assert_eq!(NestedOptionBool::from_discr(3), Some(Some(Some(false))));
    assert_eq!(NestedOptionBool::from_discr(4), Some(Some(Some(true))));
    assert_eq!(a.nth(3).unwrap(), Some(Some(Some(true))));
    assert_eq!(a.next(), None);
}

#[test]
fn lib_result_option_unit() {
    type Abomination = Result<Result<Option<()>, bool>, Result<(), Option<bool>>>;

    check_values_of::<Abomination>(8);
    let expected: [Abomination; 8] = [
        Ok(Ok(None)),
        Ok(Ok(Some(()))),
        Ok(Err(false)),
        Ok(Err(true)),
        Err(Ok(())),
        Err(Err(None)),
        Err(Err(Some(false))),
        Err(Err(Some(true))),
    ];
    let mut values = Abomination::values();
    for e in expected {
        assert_eq!(values.next(), Some(e));
    }
    assert_eq!(values.next(), None);
}

// Helper function to convert from u32 to [bool; N]
fn as_bool_vec_u32(mut x: u32, n: usize) -> Vec<bool> {
    let mut v = vec![];
    while x != 0 {
        v.push((x & 1) == 1);
        x = x >> 1;
    }

    while v.len() < n {
        v.push(false);
    }

    v
}

#[test]
fn lib_check_array_impls() {
    let mut a = <[bool; 0]>::values();
    for i in 0..(1 << 0) {
        assert_eq!(a.next().unwrap(), *as_bool_vec_u32(i, 0));
    }
    assert_eq!(a.next(), None);

    let mut a = <[bool; 1]>::values();
    for i in 0..(1 << 1) {
        assert_eq!(a.next().unwrap(), *as_bool_vec_u32(i, 1));
    }
    assert_eq!(a.next(), None);

    let mut a = <[bool; 2]>::values();
    for i in 0..(1 << 2) {
        assert_eq!(a.next().unwrap(), *as_bool_vec_u32(i, 2));
    }
    assert_eq!(a.next(), None);

    let mut a = <[bool; 3]>::values();
    for i in 0..(1 << 3) {
        assert_eq!(a.next().unwrap(), *as_bool_vec_u32(i, 3));
    }
    assert_eq!(a.next(), None);

    let mut a = <[bool; 4]>::values();
    for i in 0..(1 << 4) {
        assert_eq!(a.next().unwrap(), *as_bool_vec_u32(i, 4));
    }
    assert_eq!(a.next(), None);

    // The last values of the longest array, reached by skipping
    let mut a = <[bool; 4]>::values();
    assert_eq!(a.nth((1 << 4) - 3).unwrap(), *as_bool_vec_u32((1 << 4) - 3, 4));
    assert_eq!(a.next().unwrap(), *as_bool_vec_u32((1 << 4) - 2, 4));
    assert_eq!(a.next().unwrap(), *as_bool_vec_u32((1 << 4) - 1, 4));
    assert_eq!(a.next(), None);
}
