use enum_vec::layout::bits_for;
use enum_vec::{EnumLike, EnumValues, PackedU16, PackedU8};
use std::sync::atomic::{AtomicUsize, Ordering};

#[derive(Copy, Clone, Debug, PartialEq, Eq)]
struct Digit {
    x: u8, // x >= 0 && x <= 9
}

impl EnumLike for Digit {
    const NUM_VARIANTS: usize = 10;
    fn to_discr(self) -> usize {
        self.x as usize
    }
    fn from_discr(x: usize) -> Self {
        let x = x as u8;
        Self { x }
    }
}

/// A type with `N` values.
#[derive(Copy, Clone, Debug, PartialEq, Eq)]
struct Below<const N: usize>(usize);

impl<const N: usize> EnumLike for Below<N> {
    const NUM_VARIANTS: usize = N;
    fn to_discr(self) -> usize {
        self.0
    }
    fn from_discr(x: usize) -> Self {
        Below(x)
    }
}

#[test]
fn nine_digits_take_two_words_of_32_bits() {
    let mut v = enum_vec::vec_u32::EnumVec::new();
    assert_eq!(v.storage().len(), 0);
    for i in 0..8 {
        v.push(Digit { x: i });
        assert_eq!(v.storage().len(), 1);
    }
    v.push(Digit { x: 8 });
    assert_eq!(v.storage().len(), 2);
    assert_eq!(v.len(), 9);
    // Popping leaves the words where they are
    v.pop();
    assert_eq!(v.storage().len(), 2);
    // A spare word is used before a new one is added
    v.push(Digit { x: 1 });
    assert_eq!(v.storage().len(), 2);
    v.shrink_to_fit();
    assert_eq!(v.storage().len(), 2);
    v.truncate(8);
    v.shrink_to_fit();
    assert_eq!(v.storage().len(), 1);
    assert!(v.capacity() >= 8);

    let mut small = enum_vec::smallvec_u32::EnumVec::new();
    for i in 0..9 {
        small.push(Digit { x: i });
    }
    assert_eq!(small.storage().len(), 2);
}

#[test]
fn inserting_at_the_front_reverses() {
    let mut v = enum_vec::EnumVec::new();
    for i in 0..5 {
        v.insert(0, Digit { x: i });
    }
    for i in 0..5 {
        assert_eq!(v.get(i), Some(Digit { x: 4 - i as u8 }));
    }
    assert_eq!(v.get(5), None);
}

static ENCODED: AtomicUsize = AtomicUsize::new(0);

#[derive(Copy, Clone, Debug, PartialEq, Eq)]
struct Counted(bool, bool);

impl EnumLike for Counted {
    const NUM_VARIANTS: usize = 4;
    fn to_discr(self) -> usize {
        ENCODED.fetch_add(1, Ordering::SeqCst);
        (self.0, self.1).to_discr()
    }
    fn from_discr(x: usize) -> Self {
        let (a, b) = <(bool, bool)>::from_discr(x);
        Counted(a, b)
    }
}

#[test]
fn from_elem_fills_without_encoding_each_element() {
    let before = ENCODED.load(Ordering::SeqCst);
    let ev = enum_vec::EnumVec::from_elem(Counted(true, false), 1000);
    let encoded = ENCODED.load(Ordering::SeqCst) - before;
    assert!(encoded < 1000);
    assert_eq!(encoded, 1);
    assert_eq!(ev.len(), 1000);
    let mut it = ev.iter();
    let mut seen = 0;
    while let Some(x) = it.next() {
        assert_eq!(x, Counted(true, false));
        seen += 1;
    }
    assert_eq!(seen, 1000);
    assert_eq!(ev.get(1000), None);
}

#[test]
fn bulk_fill_at_every_alignment() {
    // 3 bits to a code, so 10 codes to a word of 32 bits
    for start in 0..25 {
        for count in [0, 1, 9, 10, 11, 39, 40, 41, 43, 44, 45, 50, 100, 333] {
            let mut v: enum_vec::vec_u32::EnumVec<Below<8>> = enum_vec::vec_u32::EnumVec::new();
            let mut plain = Vec::new();
            for i in 0..start {
                v.push(Below(i % 8));
                plain.push(Below(i % 8));
            }
            v.extend_with_value(Below(5), count);
            plain.resize(start + count, Below(5));
            assert_eq!(v.to_vec(), plain);
            v.push(Below(7));
            plain.push(Below(7));
            assert_eq!(v.to_vec(), plain);
        }
    }
}

#[test]
fn length_follows_the_operations() {
    let mut v = enum_vec::vec_u64::EnumVec::new();
    let mut expected = 0;
    assert_eq!(v.len(), expected);
    assert!(v.is_empty());
    for i in 0..100 {
        v.push(Digit { x: (i % 10) as u8 });
        expected += 1;
        assert_eq!(v.len(), expected);
        v.insert(i / 2, Digit { x: 9 });
        expected += 1;
        assert_eq!(v.len(), expected);
        if i % 3 == 0 {
            v.remove(i / 3);
            expected -= 1;
            assert_eq!(v.len(), expected);
        }
        if i % 5 == 0 {
            assert!(v.pop().is_some());
            expected -= 1;
            assert_eq!(v.len(), expected);
        }
        if expected > 0 {
            assert!(v.get(expected - 1).is_some());
        }
        assert!(v.get(expected).is_none());
        assert!(v.get(usize::MAX).is_none());
    }
    assert!(!v.is_empty());
    while v.pop().is_some() {
        expected -= 1;
    }
    assert_eq!(expected, 0);
    assert_eq!(v.pop(), None);
    assert_eq!(v.len(), 0);
}

#[test]
fn insert_then_remove_restores() {
    let items: Vec<Below<5>> = (0..70).map(|i| Below((i * 7) % 5)).collect();
    for at in 0..=items.len() {
        let mut v = enum_vec::vec_u16::EnumVec::from_slice(&items);
        v.insert(at, Below(4));
        assert_eq!(v.len(), items.len() + 1);
        assert_eq!(v.get(at), Some(Below(4)));
        assert_eq!(v.remove(at), Below(4));
        assert_eq!(v.to_vec(), items);
    }
}

fn next_random(seed: &mut usize) -> usize {
    *seed = seed.wrapping_mul(1103515245).wrapping_add(12345) % 2147483648;
    *seed / 16
}

#[test]
fn shifting_in_words_of_8_bits() {
    // 3 bits to a code, so 2 codes to a word and 2 bits to spare
    let mut packed = enum_vec::vec_u8::EnumVec::new();
    let mut plain: Vec<Below<8>> = Vec::new();
    let mut seed = 1;
    for step in 0..300 {
        let x = Below(next_random(&mut seed) % 8);
        let at = next_random(&mut seed) % (plain.len() + 1);
        if step % 3 == 2 && !plain.is_empty() {
            let at = at % plain.len();
            assert_eq!(packed.remove(at), plain.remove(at));
        } else {
            packed.insert(at, x);
            plain.insert(at, x);
        }
        assert_eq!(packed.to_vec(), plain);
    }
}

#[test]
fn shifting_in_words_of_16_bits() {
    // 5 bits to a code, so 3 codes to a word and 1 bit to spare
    let mut packed = enum_vec::vec_u16::EnumVec::new();
    let mut plain: Vec<Below<32>> = Vec::new();
    let mut seed = 2;
    for step in 0..300 {
        let x = Below(next_random(&mut seed) % 32);
        let at = next_random(&mut seed) % (plain.len() + 1);
        if step % 3 == 2 && !plain.is_empty() {
            let at = at % plain.len();
            assert_eq!(packed.remove(at), plain.remove(at));
        } else {
            packed.insert(at, x);
            plain.insert(at, x);
        }
        assert_eq!(packed.to_vec(), plain);
    }
}

#[test]
fn shifting_in_words_of_32_bits() {
    // 3 bits to a code, so 10 codes to a word and 2 bits to spare
    let mut packed = enum_vec::vec_u32::EnumVec::new();
    let mut plain: Vec<(bool, bool, bool)> = Vec::new();
    let mut seed = 12345;
    for step in 0..400 {
        let x = <(bool, bool, bool)>::from_discr(next_random(&mut seed) % 8);
        let at = next_random(&mut seed) % (plain.len() + 1);
        if step % 3 == 2 && !plain.is_empty() {
            let at = at % plain.len();
            assert_eq!(packed.remove(at), plain.remove(at));
        } else {
            packed.insert(at, x);
            plain.insert(at, x);
        }
        assert_eq!(packed.len(), plain.len());
        for i in 0..plain.len() {
            assert_eq!(packed.get(i), Some(plain[i]));
        }
        assert_eq!(packed.get(plain.len()), None);
    }
}

#[test]
fn shifting_in_words_of_64_bits() {
    // 7 bits to a code, so 9 codes to a word and 1 bit to spare
    let mut packed = enum_vec::vec_u64::EnumVec::new();
    let mut plain: Vec<Below<100>> = Vec::new();
    let mut seed = 4;
    for step in 0..300 {
        let x = Below(next_random(&mut seed) % 100);
        let at = next_random(&mut seed) % (plain.len() + 1);
        if step % 3 == 2 && !plain.is_empty() {
            let at = at % plain.len();
            assert_eq!(packed.remove(at), plain.remove(at));
        } else {
            packed.insert(at, x);
            plain.insert(at, x);
        }
        assert_eq!(packed.to_vec(), plain);
    }
}

#[test]
fn shifting_in_words_of_128_bits() {
    // 11 bits to a code, so 11 codes to a word and 7 bits to spare
    let mut packed = enum_vec::vec_u128::EnumVec::new();
    let mut plain: Vec<Below<2000>> = Vec::new();
    let mut seed = 5;
    for step in 0..300 {
        let x = Below(next_random(&mut seed) % 2000);
        let at = next_random(&mut seed) % (plain.len() + 1);
        if step % 3 == 2 && !plain.is_empty() {
            let at = at % plain.len();
            assert_eq!(packed.remove(at), plain.remove(at));
        } else {
            packed.insert(at, x);
            plain.insert(at, x);
        }
        assert_eq!(packed.to_vec(), plain);
    }
}

#[test]
fn shifting_in_a_small_vec() {
    let mut packed = enum_vec::smallvec_u32::EnumVec::new();
    let mut plain: Vec<Below<8>> = Vec::new();
    let mut seed = 6;
    for step in 0..300 {
        let x = Below(next_random(&mut seed) % 8);
        let at = next_random(&mut seed) % (plain.len() + 1);
        if step % 3 == 2 && !plain.is_empty() {
            let at = at % plain.len();
            assert_eq!(packed.remove(at), plain.remove(at));
        } else {
            packed.insert(at, x);
            plain.insert(at, x);
        }
        assert_eq!(packed.to_vec(), plain);
    }
    packed.truncate(3);
    packed.shrink_to_fit();
    assert_eq!(packed.storage().len(), 1);
    assert_eq!(packed.to_vec(), plain[..3].to_vec());
    assert!(packed.capacity() >= 3);
}

#[test]
fn a_code_as_wide_as_the_word() {
    // 256 values take 8 bits: one code to a word of 8 bits
    let mut packed = enum_vec::vec_u8::EnumVec::new();
    let mut plain: Vec<Below<256>> = Vec::new();
    let mut seed = 7;
    for step in 0..200 {
        let x = Below(next_random(&mut seed) % 256);
        let at = next_random(&mut seed) % (plain.len() + 1);
        if step % 3 == 2 && !plain.is_empty() {
            let at = at % plain.len();
            assert_eq!(packed.remove(at), plain.remove(at));
        } else {
            packed.insert(at, x);
            plain.insert(at, x);
        }
        assert_eq!(packed.to_vec(), plain);
        assert_eq!(packed.storage().len() >= plain.len(), true);
    }
    let filled = enum_vec::vec_u8::EnumVec::from_elem(Below::<256>(255), 77);
    assert_eq!(filled.to_vec(), vec![Below::<256>(255); 77]);
}

#[test]
fn domains_that_do_not_fit_are_rejected() {
    // No value, or one value, needs no bit
    assert!(enum_vec::vec_u32::EnumVec::<Below<0>>::try_new().is_none());
    assert!(enum_vec::vec_u32::EnumVec::<()>::try_new().is_none());
    assert!(enum_vec::vec_u32::EnumVec::<Below<1>>::try_new().is_none());
    assert!(enum_vec::vec_u32::EnumVec::<bool>::try_new().is_some());
    // 257 values need 9 bits
    assert!(enum_vec::vec_u8::EnumVec::<Below<256>>::try_new().is_some());
    assert!(enum_vec::vec_u8::EnumVec::<Below<257>>::try_new().is_none());
    assert!(enum_vec::vec_u16::EnumVec::<Below<257>>::try_new().is_some());
    assert!(enum_vec::vec_u16::EnumVec::<Below<65536>>::try_new().is_some());
    assert!(enum_vec::vec_u16::EnumVec::<Below<65537>>::try_new().is_none());
    assert!(enum_vec::vec_u32::EnumVec::<Below<65537>>::try_new().is_some());
    assert!(enum_vec::vec_u32::EnumVec::<Below<4294967296>>::try_new().is_some());
    assert!(enum_vec::vec_u32::EnumVec::<Below<4294967297>>::try_new().is_none());
    assert!(enum_vec::smallvec_u32::EnumVec::<Below<4294967297>>::try_new().is_none());
    assert!(enum_vec::vec_u64::EnumVec::<Below<4294967297>>::try_new().is_some());
    assert!(enum_vec::vec_u64::EnumVec::<Below<{ usize::MAX }>>::try_new().is_some());
    assert!(enum_vec::vec_u128::EnumVec::<Below<{ usize::MAX }>>::try_new().is_some());
}

#[test]
fn bits_for_a_number_of_values() {
    assert_eq!(bits_for(0), 0);
    assert_eq!(bits_for(1), 0);
    assert_eq!(bits_for(2), 1);
    assert_eq!(bits_for(3), 2);
    assert_eq!(bits_for(4), 2);
    assert_eq!(bits_for(5), 3);
    assert_eq!(bits_for(8), 3);
    assert_eq!(bits_for(9), 4);
    assert_eq!(bits_for(10), 4);
    assert_eq!(bits_for(100), 7);
    assert_eq!(bits_for(256), 8);
    assert_eq!(bits_for(257), 9);
    assert_eq!(bits_for(usize::MAX), usize::BITS as usize);
}

#[test]
fn append_moves_the_elements() {
    // 4 bits to a code, so 8 codes to a word of 32 bits
    for left in [0, 1, 7, 8, 9, 16, 20] {
        for right in [0, 1, 7, 8, 9, 30] {
            let mut a = enum_vec::vec_u32::EnumVec::new();
            let mut b = enum_vec::vec_u32::EnumVec::new();
            let mut plain = Vec::new();
            for i in 0..left {
                a.push(Digit { x: (i % 10) as u8 });
                plain.push(Digit { x: (i % 10) as u8 });
            }
            for i in 0..right {
                b.push(Digit { x: ((i * 3) % 10) as u8 });
                plain.push(Digit { x: ((i * 3) % 10) as u8 });
            }
            // Words beyond the elements must not get in the way
            a.push(Digit { x: 1 });
            a.pop();
            b.reserve(20);
            a.append(&mut b);
            assert_eq!(a.to_vec(), plain);
            assert_eq!(b.len(), 0);
            assert!(b.is_empty());
            a.push(Digit { x: 9 });
            plain.push(Digit { x: 9 });
            assert_eq!(a.to_vec(), plain);
        }
    }
}

#[test]
fn split_truncate_resize_clear() {
    let items: Vec<Digit> = (0..30).map(|i| Digit { x: (i % 10) as u8 }).collect();
    for at in [0, 1, 8, 15, 29, 30] {
        let mut v = enum_vec::EnumVec::from_slice(&items);
        let tail = v.split_off(at);
        assert_eq!(v.to_vec(), items[..at].to_vec());
        assert_eq!(tail.to_vec(), items[at..].to_vec());
    }

    let mut v = enum_vec::EnumVec::from_vec(items.clone());
    v.truncate(40);
    assert_eq!(v.len(), 30);
    v.truncate(12);
    assert_eq!(v.to_vec(), items[..12].to_vec());
    v.resize(5, Digit { x: 7 });
    assert_eq!(v.to_vec(), items[..5].to_vec());
    v.resize(8, Digit { x: 7 });
    let mut expected = items[..5].to_vec();
    expected.resize(8, Digit { x: 7 });
    assert_eq!(v.to_vec(), expected);
    v.resize(8, Digit { x: 1 });
    assert_eq!(v.to_vec(), expected);
    v.clear();
    assert_eq!(v.len(), 0);
    assert_eq!(v.get(0), None);
    // What was there is hidden, not erased
    v.set_len(2);
    assert_eq!(v.to_vec(), items[..2].to_vec());
    assert_eq!(v.get_raw_unchecked(1), 1);
    v.set_raw_unchecked(1, 6);
    assert_eq!(v.get(1), Some(Digit { x: 6 }));
    assert_eq!(v.get(0), Some(Digit { x: 0 }));
}

#[test]
fn swap_and_swap_remove() {
    let mut ev = enum_vec::EnumVec::from_vec(vec![true, true, true, false, false]);
    ev.swap_remove(0);
    assert_eq!(&ev.to_vec(), &[false, true, true, false]);
    ev.swap_remove(1);
    assert_eq!(&ev.to_vec(), &[false, false, true]);
    assert_eq!(ev.swap_remove(2), true);
    assert_eq!(&ev.to_vec(), &[false, false]);
    ev.push(true);
    ev.swap(0, 2);
    assert_eq!(&ev.to_vec(), &[true, false, false]);
    ev.swap(1, 1);
    assert_eq!(&ev.to_vec(), &[true, false, false]);
}

#[test]
fn retain_and_for_each() {
    let mut v = enum_vec::EnumVec::from_vec(vec![
        (true, true),
        (false, false),
        (true, false),
        (false, true),
    ]);
    v.retain(|x| x.0 == true);
    assert_eq!(&v.to_vec(), &[(true, true), (true, false)]);
    v.retain(|_| false);
    assert!(v.is_empty());

    let mut numbers = enum_vec::EnumVec::from_vec((0..50).map(|i| Below::<7>(i % 7)).collect());
    numbers.retain(|x| x.0 % 2 == 1);
    let expected: Vec<Below<7>> =
        (0..50).map(|i| Below::<7>(i % 7)).filter(|x| x.0 % 2 == 1).collect();
    assert_eq!(numbers.to_vec(), expected);

    let mut ev = enum_vec::EnumVec::from_vec(vec![true, false, true]);
    ev.for_each(|x| !x);
    assert_eq!(&ev.to_vec(), &[false, true, false]);
}

#[test]
fn cursors_from_both_ends() {
    let items: Vec<Digit> = (0..10).map(|i| Digit { x: i }).collect();
    let v = enum_vec::EnumVec::from_slice(&items);
    let mut it = v.iter();
    assert_eq!(it.size_hint(), (10, Some(10)));
    assert_eq!(it.next(), Some(Digit { x: 0 }));
    assert_eq!(it.next_back(), Some(Digit { x: 9 }));
    assert_eq!(it.nth(2), Some(Digit { x: 3 }));
    assert_eq!(it.size_hint(), (5, Some(5)));
    assert_eq!(it.next(), Some(Digit { x: 4 }));
    assert_eq!(v.iter().last(), Some(Digit { x: 9 }));
    assert_eq!(v.iter().count(), 10);
    assert_eq!(it.nth(4), None);
    assert_eq!(it.next(), None);
    assert_eq!(it.next_back(), None);
    assert_eq!(it.count(), 0);

    let copy = v.clone();
    assert!(copy.eq(&v));
    let mut owning = v.into_iter();
    assert_eq!(owning.size_hint(), (10, Some(10)));
    assert_eq!(owning.next_back(), Some(Digit { x: 9 }));
    assert_eq!(owning.next(), Some(Digit { x: 0 }));
    assert_eq!(owning.nth(7), Some(Digit { x: 8 }));
    assert_eq!(owning.next(), None);
    let owning = copy.into_iter();
    assert_eq!(owning.count(), 10);
    let empty: enum_vec::EnumVec<Digit> = enum_vec::EnumVec::new();
    assert_eq!(empty.iter().last(), None);
    assert_eq!(empty.into_iter().last(), None);
    assert_eq!(enum_vec::EnumVec::from_slice(&items).into_vec(), items);
}

#[test]
fn equality_looks_at_the_elements_only() {
    let mut a = enum_vec::EnumVec::from_vec(vec![true, false, true]);
    let mut b = enum_vec::EnumVec::with_capacity(100);
    b.reserve(500);
    b.extend(vec![true, false, true, true]);
    assert!(!a.eq(&b));
    assert!(!b.eq(&a));
    b.pop();
    assert!(a.eq(&b));
    assert!(b.eq(&a));
    assert!(a == b);
    assert_eq!(a, b);
    a.set(1, true);
    assert!(!a.eq(&b));
    assert!(a != b);
    assert!(a.same_codes(&a));
    let d: enum_vec::EnumVec<bool> = Default::default();
    assert_eq!(d.len(), 0);
    assert!(d.eq(&enum_vec::EnumVec::new()));
}

#[test]
fn values_cursor() {
    let mut d = Digit::values();
    assert_eq!(d.size_hint(), (10, Some(10)));
    assert_eq!(d.nth(3), Some(Digit { x: 3 }));
    assert_eq!(d.next(), Some(Digit { x: 4 }));
    assert_eq!(d.count(), 5);
    assert_eq!(d.last(), Some(Digit { x: 9 }));
    assert_eq!(d.nth(5), None);
    assert_eq!(d.next(), None);
    assert_eq!(d.last(), None);
    assert_eq!(<()>::values().count(), 1);
    assert_eq!(Below::<0>::values().next(), None);
    assert_eq!(Below::<0>::values().last(), None);
}

#[test]
fn packed_values() {
    for i in 0..10 {
        let p = PackedU8::new(Digit { x: i });
        assert_eq!(p.get(), Digit { x: i });
        assert_eq!(p, PackedU8::new(Digit { x: i }));
        let q = PackedU16::new(Digit { x: i });
        assert_eq!(q.get(), Digit { x: i });
    }
    assert_eq!(PackedU8::new(Below::<256>(255)).get(), Below::<256>(255));
    assert_eq!(PackedU16::new(Below::<65536>(65535)).get(), Below::<65536>(65535));
    assert_eq!(PackedU16::new(Below::<65536>(256)).get(), Below::<65536>(256));
    assert!(PackedU8::new(false) < PackedU8::new(true));
    assert!(PackedU16::new(Some(false)) > PackedU16::new(None));
}

#[test]
fn codes_of_the_built_in_types() {
    assert_eq!(().to_discr(), 0);
    assert_eq!(false.to_discr(), 0);
    assert_eq!(true.to_discr(), 1);
    assert_eq!(None::<bool>.to_discr(), 0);
    assert_eq!(Some(false).to_discr(), 1);
    assert_eq!(Some(true).to_discr(), 2);
    assert_eq!(Ok::<bool, Digit>(true).to_discr(), 1);
    assert_eq!(Err::<bool, Digit>(Digit { x: 0 }).to_discr(), 2);
    assert_eq!(Err::<bool, Digit>(Digit { x: 9 }).to_discr(), 11);
    assert_eq!(<Result<bool, Digit>>::NUM_VARIANTS, 12);
    assert_eq!((Digit { x: 7 },).to_discr(), 7);
    // The first field is the lowest digit
    assert_eq!((Digit { x: 7 }, true).to_discr(), 17);
    assert_eq!((true, Digit { x: 7 }).to_discr(), 15);
    assert_eq!((true, Digit { x: 7 }, Digit { x: 3 }).to_discr(), 1 + 7 * 2 + 3 * 20);
    assert_eq!(
        (true, Digit { x: 7 }, Digit { x: 3 }, Some(false)).to_discr(),
        1 + 7 * 2 + 3 * 20 + 1 * 200
    );
    assert_eq!(<(bool, Digit, Digit, Option<bool>)>::NUM_VARIANTS, 2 * 10 * 10 * 3);
    assert_eq!([Digit { x: 1 }, Digit { x: 2 }, Digit { x: 3 }].to_discr(), 321);
    assert_eq!(<[Digit; 4]>::from_discr(4321), [1, 2, 3, 4].map(|x| Digit { x }));
    assert_eq!(<[Digit; 1]>::from_discr(4), [Digit { x: 4 }]);
    assert_eq!(<[Digit; 0]>::NUM_VARIANTS, 1);
    assert_eq!(<(bool, Digit)>::from_discr(17), (true, Digit { x: 8 }));
}

#[test]
fn bit_vectors() {
    let mut bits = enum_vec::vec_u64::BitVec::new();
    for i in 0..130 {
        bits.push(i % 3 == 0);
    }
    // One bit to a code, so 64 codes to a word
    assert_eq!(bits.storage().len(), 3);
    for i in 0..130 {
        assert_eq!(bits.get(i), Some(i % 3 == 0));
    }
    bits.insert(64, true);
    assert_eq!(bits.get(63), Some(true));
    assert_eq!(bits.get(64), Some(true));
    assert_eq!(bits.get(65), Some(false));
    assert_eq!(bits.get(66), Some(false));
    assert_eq!(bits.get(67), Some(true));
    assert_eq!(bits.len(), 131);
}
