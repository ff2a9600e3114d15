use noodles::cigar::{Cigar, CigarError, Kind, Op};

#[test]
fn test_from_bytes() {
    let data = vec![0x00000240, 0x00000362]; // 36M, then kind code 2 with length 54
    let cigar = Cigar::new(data);

    let ops = cigar.ops();

    assert_eq!(ops.get(0).cloned(), Some(Op::from_raw(0x240)));
    assert_eq!(ops.get(1).cloned(), Some(Op::from_raw(0x362)));
    assert_eq!(ops.get(2).cloned(), None);
}

#[test]
fn cigar_op_fields() {
    assert_eq!(Op::from_raw(0x240), Ok(Op::new(Kind::Match, 36)));
    assert_eq!(Op::from_raw(0x362), Ok(Op::new(Kind::Deletion, 54)));
    assert_eq!(Op::from_raw(0x249), Err(CigarError::InvalidKind));
}

#[test]
fn cigar_reference_len() {
    let cigar = Cigar::new(vec![0x00000240, 0x00000043, 0x00000084]); // 36M4D8S
    assert_eq!(cigar.reference_len(), Ok(40));
}

#[test]
fn cigar_read_len() {
    let cigar = Cigar::new(vec![0x00000240, 0x00000043, 0x00000084]); // 36M4D8S
    assert_eq!(cigar.read_len(), Ok(44));
}

#[test]
fn cigar_invalid_kind_and_overflow() {
    let cigar = Cigar::new(vec![0x00000240, 0x0000004f]);
    assert_eq!(cigar.reference_len(), Err(CigarError::InvalidKind));
    let big = 0xffff_fff0u32; // largest length, kind M
    let cigar = Cigar::new(vec![big, big, big, big, big, big, big, big, big, big, big, big, big, big, big, big, big]);
    assert_eq!(cigar.read_len(), Err(CigarError::Overflow));
    assert_eq!(Cigar::new(Vec::new()).read_len(), Ok(0));
}
