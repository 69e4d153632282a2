use gauntlet::mayberef::MaybeRef::{Ref, Val};

#[test]
fn test() {
    let x = "foo";
    let r = Ref(&x);
    let v = Val(x);
    assert_eq!(r.take(), v.take());
}

#[test]
fn deref_reads_either_form() {
    let n = 7u64;
    let r = Ref(&n);
    let v = Val(9u64);
    assert_eq!(*r, 7);
    assert_eq!(*v, 9);
}
