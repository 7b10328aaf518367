use docx_pdf::pdf_stream_writer::{PdfStreamWriter, WriterError};

fn text(b: &[u8]) -> String {
    String::from_utf8(b.to_vec()).unwrap()
}

fn parse_xref(file: &[u8]) -> (usize, Vec<usize>) {
    let s = text(file);
    let start_pos = s.rfind("startxref\n").unwrap();
    let xref_start: usize = s[start_pos + 10..].lines().next().unwrap().parse().unwrap();
    let table = &s[xref_start..];
    let mut lines = table.lines();
    assert_eq!(lines.next(), Some("xref"));
    let head = lines.next().unwrap();
    let count: usize = head.split(' ').nth(1).unwrap().parse().unwrap();
    assert_eq!(lines.next(), Some("0000000000 65535 f "));
    let mut offs = Vec::new();
    for _ in 1..count {
        let l = lines.next().unwrap();
        assert_eq!(l.len(), 19);
        assert!(l.ends_with(" 00000 n "));
        offs.push(l[..10].parse().unwrap());
    }
    (count, offs)
}

#[test]
fn header_is_written_first() {
    let mut w = PdfStreamWriter::new();
    assert_eq!(w.take_output(), b"%PDF-1.7\n".to_vec());
    assert_eq!(w.next_obj_id(), 1);
}

#[test]
fn ids_are_sequential_and_framed() {
    let mut w = PdfStreamWriter::new();
    assert_eq!(w.write_object(b"<< >>"), Ok(1));
    assert_eq!(w.reserve_object(), Ok(2));
    assert_eq!(w.write_object(b"x"), Ok(3));
    let out = w.take_output();
    assert_eq!(text(&out), "%PDF-1.7\n1 0 obj\n<< >>\nendobj\n3 0 obj\nx\nendobj\n");
    assert_eq!(w.position(), out.len() as u64);
}

#[test]
fn write_object_with_adds_a_newline() {
    let mut w = PdfStreamWriter::new();
    w.take_output();
    let pieces = vec![b"ab".to_vec(), b"cd".to_vec()];
    assert_eq!(w.write_object_with(&pieces), Ok(1));
    assert_eq!(text(&w.take_output()), "1 0 obj\nabcd\n\nendobj\n");
}

#[test]
fn reserved_id_is_written_once() {
    let mut w = PdfStreamWriter::new();
    let id = w.reserve_object().unwrap();
    let body = vec![b"<< /Type /Pages >>".to_vec()];
    assert_eq!(w.write_object_with_reserved_id(5, &body), Err(WriterError::NotReserved(5)));
    assert_eq!(w.write_object_with_reserved_id(0, &body), Err(WriterError::NotReserved(0)));
    assert_eq!(w.write_object_with_reserved_id(id, &body), Ok(()));
    assert_eq!(w.write_object_with_reserved_id(id, &body), Err(WriterError::AlreadyWritten(id)));
}

#[test]
fn finish_refuses_unwritten_reserved_id() {
    let mut w = PdfStreamWriter::new();
    w.write_object(b"a").unwrap();
    let id = w.reserve_object().unwrap();
    w.reserve_object().unwrap();
    assert_eq!(w.finish(1), Err(WriterError::Unwritten(id)));
}

#[test]
fn finish_writes_exact_table() {
    let mut w = PdfStreamWriter::new();
    w.write_object(b"a").unwrap();
    let out = w.finish(1).unwrap();
    assert_eq!(
        text(&out),
        "%PDF-1.7\n1 0 obj\na\nendobj\nxref\n0 2\n0000000000 65535 f \n0000000009 00000 n \ntrailer << /Size 2 /Root 1 0 R >>\nstartxref\n26\n%%EOF\n"
    );
}

#[test]
fn every_offset_points_at_its_object() {
    let mut w = PdfStreamWriter::new();
    let mut file = Vec::new();
    let pages = w.reserve_object().unwrap();
    for i in 0..12 {
        let body = format!("<< /N {} >>", i);
        w.write_object(body.as_bytes()).unwrap();
        file.extend(w.take_output());
    }
    w.write_object_with_reserved_id(pages, &vec![b"<< >>".to_vec()]).unwrap();
    file.extend(w.finish(2).unwrap());
    let (count, offs) = parse_xref(&file);
    assert_eq!(count, 14);
    assert_eq!(offs.len(), 13);
    for (i, off) in offs.iter().enumerate() {
        let marker = format!("{} 0 obj\n", i + 1);
        assert_eq!(&file[*off..*off + marker.len()], marker.as_bytes());
    }
    let mut sorted = offs.clone();
    sorted.sort();
    sorted.dedup();
    assert_eq!(sorted.len(), offs.len());
}
