use enum_vec::vec_u32::EnumVec;
use enum_vec::EnumLike;

#[derive(Copy, Clone, Debug, PartialEq, Eq)]
enum ABC {
    A,
    B,
    C,
}

impl EnumLike for ABC {
    const NUM_VARIANTS: usize = 3;
    fn to_discr(self) -> usize {
        match self {
            ABC::A => 0,
            ABC::B => 1,
            ABC::C => 2,
        }
    }
    fn from_discr(x: usize) -> Self {
        match x {
            0 => ABC::A,
            1 => ABC::B,
            2 => ABC::C,
            _ => panic!("Enum ABC has no variant {}", x),
        }
    }
}

#[derive(Copy, Clone, Debug, PartialEq, Eq)]
struct Digit {
    x: u8, // x >= 0 && x <= 9
}

impl EnumLike for Digit {
    const NUM_VARIANTS: usize = 10;
    fn to_discr(self) -> usize {
        self.x as usize
    }
    fn from_discr(x: usize) -> Self {
        let x = x as u8;
        Self { x }
    }
}

#[derive(Copy, Clone, Debug, PartialEq, Eq)]
struct TwoDigits {
    tens: Digit,
    ones: Digit,
}

impl EnumLike for TwoDigits {
    const NUM_VARIANTS: usize = Digit::NUM_VARIANTS * Digit::NUM_VARIANTS;
    fn to_discr(self) -> usize {
        self.tens.to_discr() * Digit::NUM_VARIANTS + self.ones.to_discr()
    }
    fn from_discr(x: usize) -> Self {
        let tens = Digit::from_discr(x / Digit::NUM_VARIANTS);
        let ones = Digit::from_discr(x % Digit::NUM_VARIANTS);

        Self { tens, ones }
    }
}

#[test]
fn lib_abc_push_pop() {
    let mut v = EnumVec::new();
    v.push(ABC::A);
    v.push(ABC::B);
    v.push(ABC::C);
    v.push(ABC::A);

    assert_eq!(v.pop().unwrap(), ABC::A);
    assert_eq!(v.pop().unwrap(), ABC::C);
    assert_eq!(v.pop().unwrap(), ABC::B);
    assert_eq!(v.pop().unwrap(), ABC::A);
    assert!(v.pop().is_none());
}

#[test]
fn lib_option_abc() {
    let mut v = EnumVec::new();
    v.push(None);
    v.push(Some(ABC::A));
    v.push(Some(ABC::B));
    v.push(Some(ABC::C));
    v.push(Some(ABC::A));

    assert_eq!(v.pop().unwrap().unwrap(), ABC::A);
    assert_eq!(v.pop().unwrap().unwrap(), ABC::C);
    assert_eq!(v.pop().unwrap().unwrap(), ABC::B);
    assert_eq!(v.pop().unwrap().unwrap(), ABC::A);
    assert_eq!(v.pop().unwrap(), None);
    assert_eq!(v.pop(), None);
}

#[test]
fn lib_get_set() {
    let mut v = EnumVec::new();
    for _ in 0..10 {
        v.push(ABC::A);
    }

    v.set(3, ABC::C);
    v.set(5, ABC::B);

    for i in 0..10 {
        let expected = match i {
            3 => ABC::C,
            5 => ABC::B,
            _ => ABC::A,
        };

        assert_eq!(v.get(i).unwrap(), expected);
    }
}

#[test]
fn lib_insert_remove() {
    let mut v = EnumVec::new();
    for _ in 0..10 {
        v.push(ABC::B);
    }

    v.insert(0, ABC::C);
    v.insert(0, ABC::C);
    v.insert(0, ABC::C);
    v.insert(0, ABC::C);
    v.insert(0, ABC::C);

    v.insert(10, ABC::A);
    v.insert(10, ABC::A);
    v.insert(10, ABC::A);
    v.insert(10, ABC::A);
    v.insert(10, ABC::A);

    for i in 0..5 {
        assert_eq!(v.get(i).unwrap(), ABC::C);
    }
    for i in 5..10 {
        assert_eq!(v.get(i).unwrap(), ABC::B);
    }
    for i in 10..15 {
        assert_eq!(v.get(i).unwrap(), ABC::A);
    }
    for i in 15..20 {
        assert_eq!(v.get(i).unwrap(), ABC::B);
    }

    v.remove(0);
    v.remove(0);
    v.remove(0);
    v.remove(0);
    v.remove(0);
    v.insert(0, ABC::C);
    v.insert(0, ABC::C);
    v.insert(0, ABC::C);
    v.insert(0, ABC::C);
    v.insert(0, ABC::C);
    v.remove(15);
    v.remove(15);
    v.remove(15);
    v.remove(15);
    v.remove(15);
    v.insert(15, ABC::B);
    v.insert(15, ABC::B);
    v.insert(15, ABC::B);
    v.insert(15, ABC::B);
    v.insert(15, ABC::B);

    for i in 0..5 {
        assert_eq!(v.get(i).unwrap(), ABC::C);
    }
    for i in 5..10 {
        assert_eq!(v.get(i).unwrap(), ABC::B);
    }
    for i in 10..15 {
        assert_eq!(v.get(i).unwrap(), ABC::A);
    }
    for i in 15..20 {
        assert_eq!(v.get(i).unwrap(), ABC::B);
    }
}

#[test]
fn lib_digit_test() {
    let mut v = EnumVec::new();
    // 9 digits so we must use two 32-bit blocks
    v.push(Digit { x: 3 });
    v.push(Digit { x: 4 });
    v.push(Digit { x: 5 });
    v.push(Digit { x: 6 });
    v.push(Digit { x: 3 });
    v.push(Digit { x: 4 });
    v.push(Digit { x: 5 });
    v.push(Digit { x: 6 });
    v.push(Digit { x: 3 });

    assert_eq!(v.pop().unwrap().x, 3);
    assert_eq!(v.pop().unwrap().x, 6);
    assert_eq!(v.pop().unwrap().x, 5);
    assert_eq!(v.pop().unwrap().x, 4);
    assert_eq!(v.pop().unwrap().x, 3);
    assert_eq!(v.pop().unwrap().x, 6);
    assert_eq!(v.pop().unwrap().x, 5);
    assert_eq!(v.pop().unwrap().x, 4);
    assert_eq!(v.pop().unwrap().x, 3);
    assert!(v.pop().is_none());
}

#[test]
fn lib_digit_uses_4_bits() {
    // Digit has NUM_VARIANTS = 10, so it uses 4 bits.
    // Therefore if we pass a digit with an invalid value,
    // it will only store the 4 least significant bits (LSB).
    // But it can override other elements in the vector,
    // so please don't do it.
    let mut v = EnumVec::new();
    v.push(Digit { x: 0x3B });
    let got = v.pop().unwrap().x;
    assert_eq!(got, 0x0B);
}

#[test]
fn lib_two_digit_test() {
    let mut ev = EnumVec::new();
    let mut v = Vec::new();
    for i in 0..10 {
        let d = TwoDigits {
            tens: Digit { x: i },
            ones: Digit { x: 9 - i },
        };
        ev.push(d);
        v.push(d);
    }

    for i in 0..10 {
        assert_eq!((i, v[i]), (i, ev.get(i).unwrap()));
    }

    for i in 0..10 {
        let mut d = ev.get(i).unwrap();
        d.tens.x = (d.tens.x + 3) % 10;
        d.ones.x = (d.ones.x * 2 + 1) % 10;
        ev.set(i, d);
        // Just so we test something
        assert_eq!(d, ev.get(i).unwrap());
    }
}

#[test]
fn lib_from_vec() {
    let a = vec![ABC::C, ABC::A, ABC::A, ABC::B, ABC::C];
    let mut v = EnumVec::new();
    v.extend(a.clone());
    for i in 0..a.len() {
        assert_eq!(a[i], v.get(i).unwrap());
    }
}
