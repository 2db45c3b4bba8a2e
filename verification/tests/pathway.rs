use aion::pathway::{binary_digits, PathwayDescriptor, PathwayIterator, _B, _E, _T, _Y};

#[test]
fn adding() {
    let mut a = PathwayDescriptor::new();
    a.add_to_path(_Y);
    a.add_to_path(_Y);
    a.add_to_path(_E);
    a.add_to_path(_T);
    a.add_to_path(_T);
    a.add_to_path(_E);
    a.add_to_path(_B);
    a.add_to_path(_Y);

    println!("{:b}, {:b}", a.fields[0], a.fields[1]);
    assert_eq!(a.fields[0], 0b11110010);
    assert_eq!(a.get_at_index(0).unwrap(), _Y);
    assert_eq!(a.get_at_index(2).unwrap(), _E);
    assert_eq!(a.get_at_index(6).unwrap(), _B);
}

#[test]
fn trunk_and_branch_pathways() {
    let t = PathwayDescriptor::trunk();
    assert_eq!(t.size, 2);
    assert_eq!(t.tx_count, 2);
    assert_eq!(t.get_at_index(0), Some(_T));
    assert_eq!(t.get_at_index(1), Some(_E));
    assert_eq!(t.get_at_index(2), None);
    let b = PathwayDescriptor::branch();
    assert_eq!(b.get_at_index(0), Some(_B));
    assert_eq!(*b.fields, vec![0b01000000]);
}

#[test]
fn add_to_path_returns_size_and_counts_transactions() {
    let mut p = PathwayDescriptor::new();
    assert_eq!(p.add_to_path(_Y), 1);
    assert_eq!(p.tx_count, 2);
    assert_eq!(p.add_to_path(_T), 2);
    assert_eq!(p.tx_count, 3);
    for _ in 0..3 {
        p.add_to_path(_B);
    }
    assert_eq!(p.size, 5);
    assert_eq!(p.fields.len(), 2);
    assert_eq!(p.get_at_index(4), Some(_B));
}

#[test]
fn format_renders_every_byte() {
    let mut p = PathwayDescriptor::new();
    p.add_to_path(_Y);
    p.add_to_path(_T);
    assert_eq!(p.format(), "|11100000");
    assert_eq!(PathwayDescriptor::new().format(), "");
    assert_eq!(binary_digits(0), "0");
    assert_eq!(binary_digits(5), "101");
}

#[test]
fn extend_replaces_last_step() {
    let mut p = PathwayDescriptor::trunk();
    p.extend(PathwayDescriptor::branch());
    assert_eq!(p.size, 3);
    assert_eq!(p.tx_count, 3);
    assert_eq!(p.get_at_index(0), Some(_T));
    assert_eq!(p.get_at_index(1), Some(_B));
    assert_eq!(p.get_at_index(2), Some(_E));
}

#[test]
fn duplicate_keeps_steps() {
    let mut p = PathwayDescriptor::new();
    p.add_to_path(_B);
    p.add_to_path(_Y);
    let d = p.duplicate();
    assert_eq!(d.size, p.size);
    assert_eq!(d.tx_count, p.tx_count);
    assert_eq!(*d.fields, *p.fields);
}

#[test]
fn iterator_walks_steps_then_ends() {
    let mut it = PathwayIterator { descriptor: PathwayDescriptor::trunk(), index: 0 };
    assert_eq!(it.next(), Some(_T));
    assert_eq!(it.next(), Some(_E));
    assert_eq!(it.next(), None);
    assert_eq!(it.index, 3);
}
