use pdf_summarizer::pipeline::{blob_name, delete, ingest, is_pdf_filename, retrieve, view_full_text};
use pdf_summarizer::store::Store;
use pdf_summarizer::summarize::SummaryOptions;
use pdf_summarizer::DocError;

/// The extraction the application layer performs before calling the library.
fn extract(content: &[u8]) -> Option<String> {
    pdf_extract::extract_text_from_mem(content).ok()
}

/// A small one-page PDF whose page shows `line` in Helvetica.
fn minimal_pdf(line: &str) -> Vec<u8> {
    let content = format!("BT /F1 12 Tf 72 720 Td ({}) Tj ET", line);
    let objects: Vec<String> = vec![
        "<< /Type /Catalog /Pages 2 0 R >>".to_string(),
        "<< /Type /Pages /Kids [3 0 R] /Count 1 >>".to_string(),
        "<< /Type /Page /Parent 2 0 R /MediaBox [0 0 612 792] /Contents 4 0 R /Resources << /Font << /F1 5 0 R >> >> >>"
            .to_string(),
        format!("<< /Length {} >>\nstream\n{}\nendstream", content.len(), content),
        "<< /Type /Font /Subtype /Type1 /BaseFont /Helvetica >>".to_string(),
    ];
    let mut out = String::new();
    out.push_str("%PDF-1.4\n");
    let mut offsets: Vec<usize> = Vec::new();
    for (i, obj) in objects.iter().enumerate() {
        offsets.push(out.len());
        out.push_str(&format!("{} 0 obj\n{}\nendobj\n", i + 1, obj));
    }
    let xref_pos = out.len();
    out.push_str("xref\n");
    out.push_str(&format!("0 {}\n", objects.len() + 1));
    out.push_str("0000000000 65535 f \n");
    for off in &offsets {
        out.push_str(&format!("{:010} 00000 n \n", off));
    }
    out.push_str(&format!(
        "trailer\n<< /Size {} /Root 1 0 R >>\nstartxref\n{}\n%%EOF\n",
        objects.len() + 1,
        xref_pos
    ));
    out.into_bytes()
}

#[test]
fn filename_validation() {
    assert!(is_pdf_filename("report.pdf"));
    assert!(is_pdf_filename("Report.PDF"));
    assert!(is_pdf_filename("archive.tar.Pdf"));
    assert!(!is_pdf_filename("report.txt"));
    assert!(!is_pdf_filename("pdf"));
    assert!(!is_pdf_filename(""));
}

#[test]
fn blob_name_appends_suffix() {
    assert_eq!(blob_name("abc-123"), "abc-123.pdf");
}

#[test]
fn error_messages() {
    assert_eq!(DocError::NotFound.message(), "Document not found");
    assert_eq!(DocError::InvalidInput.message(), "Only non-empty PDF files are accepted");
}

#[test]
fn ingest_rejects_non_pdf_filename() {
    let mut store = Store::new();
    let content = minimal_pdf("hello world");
    let r = ingest(&mut store, "notes.txt", &content, extract(&content));
    assert_eq!(r.err(), Some(DocError::InvalidInput));
    assert_eq!(store.len(), 0);
}

#[test]
fn ingest_rejects_empty_content() {
    let mut store = Store::new();
    let r = ingest(&mut store, "notes.pdf", &Vec::new(), None);
    assert_eq!(r.err(), Some(DocError::InvalidInput));
    assert_eq!(store.len(), 0);
}

#[test]
fn failed_extraction_leaves_no_entry() {
    let mut store = Store::new();
    let garbage: Vec<u8> = b"this is not a pdf at all".to_vec();
    let r = ingest(&mut store, "broken.pdf", &garbage, extract(&garbage));
    assert_eq!(r.err(), Some(DocError::ExtractionFailed));
    assert_eq!(store.len(), 0);
}

#[test]
fn successful_ingest_records_one_entry() {
    let mut store = Store::new();
    let content = minimal_pdf("hello world hello");
    let rec = ingest(&mut store, "greeting.pdf", &content, extract(&content)).expect("ingest should succeed");
    assert_eq!(store.len(), 1);
    assert_eq!(rec.id.len(), 36);
    assert_eq!(rec.filename, "greeting.pdf");
    assert_eq!(rec.word_count, 3);
    assert_eq!(rec.summary, "hello (2), world (1)");
    let stored = store.get(&rec.id).expect("the new entry should be retrievable");
    assert_eq!(stored.filename, "greeting.pdf");
}

#[test]
fn ingest_records_a_formatted_timestamp() {
    let mut store = Store::new();
    let content = minimal_pdf("timestamp check");
    let rec = ingest(&mut store, "stamp.pdf", &content, extract(&content))
        .expect("ingest should succeed");
    let b = rec.timestamp.as_bytes();
    assert_eq!(b.len(), 19);
    for (k, c) in b.iter().enumerate() {
        match k {
            4 | 7 => assert_eq!(*c, b'-'),
            10 => assert_eq!(*c, b' '),
            13 | 16 => assert_eq!(*c, b':'),
            _ => assert!(c.is_ascii_digit()),
        }
    }
}

#[test]
fn missing_extraction_outcome_fails_ingest() {
    let mut store = Store::new();
    let content = minimal_pdf("anything at all");
    let r = ingest(&mut store, "fine.pdf", &content, None);
    assert_eq!(r.err(), Some(DocError::ExtractionFailed));
    assert_eq!(store.len(), 0);
}

#[test]
fn ingest_then_delete_restores_the_store() {
    let mut store = Store::new();
    let content = minimal_pdf("round trip content");
    let rec = ingest(&mut store, "roundtrip.pdf", &content, extract(&content)).expect("ingest should succeed");
    let removed = delete(&mut store, &rec.id).expect("delete should succeed");
    assert_eq!(removed.id, rec.id);
    assert_eq!(store.len(), 0);
    assert!(store.get(&rec.id).is_none());
}

#[test]
fn delete_unknown_id_is_not_found() {
    let mut store = Store::new();
    let r = delete(&mut store, "no-such-id");
    assert_eq!(r.err(), Some(DocError::NotFound));
}

#[test]
fn retrieve_recomputes_summary_with_options() {
    let mut store = Store::new();
    let content = minimal_pdf("apple apple banana banana banana cherry");
    let rec = ingest(&mut store, "fruit.pdf", &content, extract(&content)).expect("ingest should succeed");
    let o = SummaryOptions { length: 2, min_word_length: 4, exclude_common: false };
    let rs = retrieve(&store, &rec.id, extract(&content), &o).expect("retrieve should succeed");
    assert_eq!(rs.record.id, rec.id);
    assert_eq!(rs.summary, "banana (3), apple (2)");
    assert_eq!(rs.word_count, 6);
}

#[test]
fn retrieve_unknown_id_is_not_found() {
    let store = Store::new();
    let content = minimal_pdf("anything");
    let o = SummaryOptions { length: 20, min_word_length: 4, exclude_common: false };
    let r = retrieve(&store, "missing", extract(&content), &o);
    assert_eq!(r.err(), Some(DocError::NotFound));
}

#[test]
fn view_full_text_returns_paragraphs() {
    let mut store = Store::new();
    let content = minimal_pdf("paragraph words here");
    let rec = ingest(&mut store, "view.pdf", &content, extract(&content)).expect("ingest should succeed");
    let dv = view_full_text(&store, &rec.id, extract(&content)).expect("view should succeed");
    assert_eq!(dv.record.id, rec.id);
    assert!(!dv.paragraphs.is_empty());
    assert!(dv.paragraphs[0].contains("paragraph"));
    assert_eq!(dv.word_count, 3);
}

#[test]
fn distinct_ingests_all_recorded() {
    let mut store = Store::new();
    let mut ids: Vec<String> = Vec::new();
    let lines = ["first document", "second document", "third document", "fourth document"];
    for line in lines.iter() {
        let content = minimal_pdf(line);
        let rec = ingest(&mut store, "doc.pdf", &content, extract(&content)).expect("ingest should succeed");
        ids.push(rec.id);
    }
    assert_eq!(store.len(), lines.len());
    for a in 0..ids.len() {
        for b in (a + 1)..ids.len() {
            assert_ne!(ids[a], ids[b]);
        }
    }
}
