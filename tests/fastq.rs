use noodles::fastq::{
    read_description, read_line, read_name, read_record, FastqError, Reader, Record,
};

#[test]
fn test_read_record() -> Result<(), FastqError> {
    let data = b"\
@noodles:1/1
AGCT
+
abcd
@noodles:2/1
TCGA
+noodles:2/1
dcba
";

    let mut pos = 0;
    let mut record = Record::default();

    read_record(&data[..], &mut pos, &mut record)?;
    let expected = Record::new("noodles:1/1", "AGCT", "abcd");
    assert_eq!(record, expected);

    read_record(&data[..], &mut pos, &mut record)?;
    let mut expected = Record::new("noodles:2/1", "TCGA", "dcba");
    expected.description_mut().extend_from_slice(b"noodles:2/1");
    assert_eq!(record, expected);

    let n = read_record(&data[..], &mut pos, &mut record)?;
    assert_eq!(n, 0);

    Ok(())
}

#[test]
fn test_read_line() {
    let mut buf = Vec::new();

    let data = b"noodles\n";
    let mut pos = 0;
    buf.clear();
    read_line(&data[..], &mut pos, &mut buf);
    assert_eq!(buf, b"noodles");

    let data = b"noodles\r\n";
    let mut pos = 0;
    buf.clear();
    read_line(&data[..], &mut pos, &mut buf);
    assert_eq!(buf, b"noodles");

    let data = b"noodles";
    let mut pos = 0;
    buf.clear();
    read_line(&data[..], &mut pos, &mut buf);
    assert_eq!(buf, b"noodles");
}

#[test]
fn test_read_name() -> Result<(), FastqError> {
    let mut buf = Vec::new();

    let data = b"@r0\n";
    let mut pos = 0;
    buf.clear();
    read_name(&data[..], &mut pos, &mut buf)?;
    assert_eq!(buf, b"r0");

    let data = b"r0\n";
    let mut pos = 0;
    buf.clear();
    assert!(matches!(
        read_name(&data[..], &mut pos, &mut buf),
        Err(FastqError::InvalidData)
    ));

    Ok(())
}

#[test]
fn test_read_description() -> Result<(), FastqError> {
    let mut buf = Vec::new();

    let data = b"+r0\n";
    let mut pos = 0;
    buf.clear();
    read_description(&data[..], &mut pos, &mut buf)?;
    assert_eq!(buf, b"r0");

    let data = b"r0\n";
    let mut pos = 0;
    buf.clear();
    assert!(matches!(
        read_description(&data[..], &mut pos, &mut buf),
        Err(FastqError::InvalidData)
    ));

    Ok(())
}

#[test]
fn fastq_reader_reads_all_records() {
    let data = b"@r0\nATCG\n+\nNDLS\n@r1\nGG\n+\nAB\n".to_vec();
    let mut reader = Reader::new(data);
    let records = reader.records().unwrap();
    assert_eq!(records.len(), 2);
    assert_eq!(records[0], Record::new("r0", "ATCG", "NDLS"));
    assert_eq!(records[1], Record::new("r1", "GG", "AB"));
    assert!(reader.get_ref().len() > 0);
    assert_eq!(reader.into_inner().len(), 28);
}

#[test]
fn fastq_truncated_record_is_unexpected_eof() {
    let mut reader = Reader::new(b"@r0\nATCG\n".to_vec());
    let mut record = Record::default();
    assert_eq!(reader.read_record(&mut record), Err(FastqError::UnexpectedEof));
    let mut reader = Reader::new(Vec::new());
    assert_eq!(reader.read_record(&mut record), Ok(0));
}

#[test]
fn fastq_line_length_counts_newline() {
    let data = b"ab\r\ncd";
    let mut pos = 0;
    let mut buf = Vec::new();
    assert_eq!(read_line(&data[..], &mut pos, &mut buf), 4);
    assert_eq!(pos, 4);
    assert_eq!(buf, b"ab");
}
