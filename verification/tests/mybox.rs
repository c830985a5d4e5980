use rikubox::mybox::MyBox;
use std::sync::atomic::{AtomicUsize, Ordering};

#[test]
fn drop_is_called_once() {
    static DROPS: AtomicUsize = AtomicUsize::new(0);

    struct D;
    impl Drop for D {
        fn drop(&mut self) {
            DROPS.fetch_add(1, Ordering::SeqCst);
        }
    }

    drop(MyBox::new(D));
    assert_eq!(DROPS.load(Ordering::SeqCst), 1);
}

#[test]
fn drop_is_called_once_for_zst() {
    static DROPS: AtomicUsize = AtomicUsize::new(0);

    struct Z;
    impl Drop for Z {
        fn drop(&mut self) {
            DROPS.fetch_add(1, Ordering::SeqCst);
        }
    }

    drop(MyBox::new(Z));
    assert_eq!(DROPS.load(Ordering::SeqCst), 1);
}

#[test]
fn zst_drop_is_called_once() {
    static DROPS: AtomicUsize = AtomicUsize::new(0);

    struct Z;
    impl Drop for Z {
        fn drop(&mut self) {
            DROPS.fetch_add(1, Ordering::SeqCst);
        }
    }

    drop(MyBox::new(Z));
    assert_eq!(DROPS.load(Ordering::SeqCst), 1);
}

#[test]
fn alignment_is_respected() {
    // An empty array of 64-byte vectors gives the struct their alignment.
    #[allow(unused)]
    struct A([std::arch::x86_64::__m512; 0], u8);

    assert_eq!(std::mem::align_of::<A>(), 64);
    let b = MyBox::new(A([], 1));
    let shown = format!("{:p}", &*b);
    let addr = usize::from_str_radix(shown.trim_start_matches("0x"), 16).unwrap();
    assert_eq!(addr % 64, 0);
}

#[test]
fn deref_mut_works() {
    let mut b = MyBox::new(10);
    *b = 20;
    assert_eq!(*b, 20);
}

#[test]
fn can_take_refs() {
    let mut b = MyBox::new(String::from("hi"));
    let r: &str = &b;
    assert_eq!(r, "hi");

    let rm: &mut String = &mut b;
    rm.push('!');
    assert_eq!(&*b, "hi!");
}

#[test]
fn moved_box_is_finalised_once() {
    static DROPS: AtomicUsize = AtomicUsize::new(0);

    struct D(#[allow(unused)] u64);
    impl Drop for D {
        fn drop(&mut self) {
            DROPS.fetch_add(1, Ordering::SeqCst);
        }
    }

    fn pass_on(b: MyBox<D>) -> MyBox<D> {
        b
    }

    let b = MyBox::new(D(7));
    let b = pass_on(b);
    let mut held = vec![b];
    let b = held.pop().unwrap();
    let c = pass_on(b);
    assert_eq!(DROPS.load(Ordering::SeqCst), 0);
    drop(c);
    assert_eq!(DROPS.load(Ordering::SeqCst), 1);
}

#[test]
fn nested_boxes_are_finalised_inside_out() {
    static DROPS: AtomicUsize = AtomicUsize::new(0);

    struct D;
    impl Drop for D {
        fn drop(&mut self) {
            DROPS.fetch_add(1, Ordering::SeqCst);
        }
    }

    let b = MyBox::new(MyBox::new(MyBox::new(D)));
    assert_eq!(DROPS.load(Ordering::SeqCst), 0);
    drop(b);
    assert_eq!(DROPS.load(Ordering::SeqCst), 1);
}

#[test]
fn new_box_holds_the_value() {
    let b = MyBox::new([1u8, 2, 3]);
    assert_eq!(*b, [1, 2, 3]);
    let s = MyBox::new(String::from("owned"));
    assert_eq!(s.len(), 5);
    let unit = MyBox::new(());
    assert_eq!(*unit, ());
}

#[test]
fn changes_through_a_reference_stay() {
    let mut b = MyBox::new(vec![1, 2]);
    {
        let v: &mut Vec<i32> = &mut b;
        v.push(3);
    }
    b.push(4);
    assert_eq!(*b, vec![1, 2, 3, 4]);
    assert_eq!(b.len(), 4);
    *b = Vec::new();
    assert!(b.is_empty());
}

#[test]
fn natural_alignment_is_respected() {
    let a = MyBox::new(1u128);
    let shown = format!("{:p}", &*a);
    let addr = usize::from_str_radix(shown.trim_start_matches("0x"), 16).unwrap();
    assert_eq!(addr % std::mem::align_of::<u128>(), 0);

    let b = MyBox::new(1u64);
    let shown = format!("{:p}", &*b);
    let addr = usize::from_str_radix(shown.trim_start_matches("0x"), 16).unwrap();
    assert_eq!(addr % 8, 0);
}

#[test]
fn zero_size_value_takes_no_memory() {
    struct Z;

    // A value without size lives at the marker address of its type, not in
    // a block of its own, and so do two of them at once.
    let marker = format!("{:p}", std::ptr::NonNull::<Z>::dangling());
    let a = MyBox::new(Z);
    let b = MyBox::new(Z);
    assert_eq!(format!("{:p}", &*a), marker);
    assert_eq!(format!("{:p}", &*b), marker);

    // Values with size get blocks of their own.
    let c = MyBox::new(1u8);
    let d = MyBox::new(1u8);
    assert_ne!(format!("{:p}", &*c), format!("{:p}", &*d));
}
