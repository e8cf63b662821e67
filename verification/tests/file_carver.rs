use rustrecover::carved_file::CarvedFile;
use rustrecover::error::CarverError;
use rustrecover::extractor::Extractor;
use rustrecover::matcher::PatternMatcher;
use rustrecover::constants::DEFAULT_CHUNK_SIZE;
use rustrecover::scanner::{ScanState, Scanner};
use rustrecover::signature::{
    jpeg_signature, pdf_signature, png_signature, supported_signatures, zip_signature, FileKind, Signature,
};
use rustrecover::source::ByteSource;
use rustrecover::window::ScanWindow;

// ── helpers ──────────────────────────────────────────────────────────────────

fn jpeg(start: u64, end: u64) -> CarvedFile {
    CarvedFile { kind: FileKind::Jpeg, offset_start: start, offset_end: end }
}

fn png(start: u64, end: u64) -> CarvedFile {
    CarvedFile { kind: FileKind::Png, offset_start: start, offset_end: end }
}

fn carved(kind: FileKind, start: u64, end: u64) -> CarvedFile {
    CarvedFile { kind, offset_start: start, offset_end: end }
}

fn extract_bytes(source: &[u8], start: u64, end: u64) -> Vec<u8> {
    let mut cursor = ByteSource::new(source.to_vec());
    let carved_file = carved(FileKind::Jpeg, start, end);
    let mut output: Vec<u8> = Vec::new();
    Extractor::new()
        .extract(&mut cursor, &carved_file, &mut output)
        .expect("extraction should succeed");
    output
}

// ── matcher: find_in ─────────────────────────────────────────────────────────

#[test]
fn find_in_returns_none_for_empty_pattern() {
    let matcher = PatternMatcher::new(&[]);
    assert_eq!(matcher.find_in(&[0x01, 0x02, 0x03], 0), None);
}

#[test]
fn find_in_returns_none_when_pattern_is_absent() {
    let matcher = PatternMatcher::new(&[0xFF, 0xD8]);
    assert_eq!(matcher.find_in(&[0x00, 0x11, 0x22], 0), None);
}

#[test]
fn find_in_finds_pattern_at_the_start_of_buffer() {
    let matcher = PatternMatcher::new(&[0xFF, 0xD8]);
    assert_eq!(matcher.find_in(&[0xFF, 0xD8, 0x00], 0), Some(0));
}

#[test]
fn find_in_finds_pattern_in_the_middle_of_buffer() {
    let matcher = PatternMatcher::new(&[0xFF, 0xD8]);
    assert_eq!(matcher.find_in(&[0x00, 0x11, 0xFF, 0xD8, 0x22], 0), Some(2));
}

#[test]
fn find_in_finds_pattern_at_the_end_of_buffer() {
    let matcher = PatternMatcher::new(&[0xFF, 0xD8]);
    assert_eq!(matcher.find_in(&[0x00, 0x11, 0xFF, 0xD8], 0), Some(2));
}

#[test]
fn find_in_respects_from_offset_and_skips_earlier_match() {
    let matcher = PatternMatcher::new(&[0xFF, 0xD8]);
    assert_eq!(matcher.find_in(&[0xFF, 0xD8, 0x00, 0xFF, 0xD8], 1), Some(3));
}

#[test]
fn find_in_returns_none_when_from_leaves_no_room_for_match() {
    let matcher = PatternMatcher::new(&[0xFF, 0xD8]);
    assert_eq!(matcher.find_in(&[0xFF, 0xD8, 0x00], 2), None);
}

#[test]
fn find_in_works_for_single_byte_pattern() {
    let matcher = PatternMatcher::new(&[0xAA]);
    assert_eq!(matcher.find_in(&[0x00, 0xAA, 0xFF], 0), Some(1));
}

#[test]
fn find_in_returns_none_when_from_is_past_a_short_buffer() {
    let matcher = PatternMatcher::new(&[0xFF, 0xD8, 0xFF]);
    assert_eq!(matcher.find_in(&[0xFF, 0xD8], 1), None);
}

// ── matcher: find_all_in ─────────────────────────────────────────────────────

#[test]
fn find_all_in_returns_empty_for_empty_pattern() {
    let matcher = PatternMatcher::new(&[]);
    assert!(matcher.find_all_in(&[0x01, 0x02]).is_empty());
}

#[test]
fn find_all_in_returns_empty_when_pattern_is_absent() {
    let matcher = PatternMatcher::new(&[0xFF, 0xD8]);
    assert!(matcher.find_all_in(&[0x00, 0x11, 0x22]).is_empty());
}

#[test]
fn find_all_in_finds_single_occurrence() {
    let matcher = PatternMatcher::new(&[0xFF, 0xD8]);
    assert_eq!(matcher.find_all_in(&[0x00, 0xFF, 0xD8, 0x11]), vec![1]);
}

#[test]
fn find_all_in_finds_multiple_non_overlapping_occurrences() {
    let matcher = PatternMatcher::new(&[0xFF, 0xD8]);
    let buffer = &[0xFF, 0xD8, 0x00, 0xFF, 0xD8, 0x11];
    assert_eq!(matcher.find_all_in(buffer), vec![0, 3]);
}

#[test]
fn find_all_in_finds_overlapping_occurrences() {
    let matcher = PatternMatcher::new(&[0xAA, 0xAA]);
    assert_eq!(matcher.find_all_in(&[0xAA, 0xAA, 0xAA]), vec![0, 1]);
}

#[test]
fn find_all_in_agrees_with_repeated_find_in() {
    let matcher = PatternMatcher::new(&[0xAB, 0xAB]);
    let buffer = [0xAB, 0xAB, 0xAB, 0x00, 0xAB, 0xAB];
    let all = matcher.find_all_in(&buffer);
    assert_eq!(all, vec![0, 1, 4]);
    for &i in &all {
        assert_eq!(matcher.find_in(&buffer, i), Some(i));
    }
}

// ── scanner ──────────────────────────────────────────────────────────────────

#[test]
fn should_return_empty_for_empty_source() {
    let mut cursor = ByteSource::new(vec![]);
    let result = Scanner::new().add_signature(&jpeg_signature()).with_chunk_size(64).scan(&mut cursor);
    assert!(result.is_empty());
}

#[test]
fn should_return_empty_when_no_signatures_match() {
    let mut cursor = ByteSource::new(vec![0xAA, 0xBB, 0xCC, 0xDD]);
    let result = Scanner::new().add_signature(&jpeg_signature()).with_chunk_size(64).scan(&mut cursor);
    assert!(result.is_empty());
}

#[test]
fn should_find_jpeg_entirely_within_single_chunk() {
    let data = vec![0xFF, 0xD8, 0xFF, 0xAA, 0xBB, 0xFF, 0xD9, 0x00];
    let mut cursor = ByteSource::new(data);
    let result = Scanner::new().add_signature(&jpeg_signature()).with_chunk_size(64).scan(&mut cursor);
    assert_eq!(result, vec![jpeg(0, 7)]);
}

#[test]
fn should_find_jpeg_with_offset_prefix() {
    let data = vec![0x00, 0x11, 0x22, 0xFF, 0xD8, 0xFF, 0xCC, 0xFF, 0xD9, 0x33];
    let mut cursor = ByteSource::new(data);
    let result = Scanner::new().add_signature(&jpeg_signature()).with_chunk_size(64).scan(&mut cursor);
    assert_eq!(result, vec![jpeg(3, 9)]);
}

#[test]
fn should_find_jpeg_footer_spanning_two_chunks() {
    let data = vec![0xFF, 0xD8, 0xFF, 0xAA, 0xBB, 0xCC, 0xFF, 0xD9];
    let mut cursor = ByteSource::new(data);
    let result = Scanner::new().add_signature(&jpeg_signature()).with_chunk_size(4).scan(&mut cursor);
    assert_eq!(result, vec![jpeg(0, 8)]);
}

#[test]
fn should_find_header_split_across_chunk_boundary() {
    let mut data = vec![0x00u8; 15];
    data.extend_from_slice(&[0xFF, 0xD8, 0xFF, 0xAA, 0xBB, 0xFF, 0xD9]);
    let mut cursor = ByteSource::new(data);
    let result = Scanner::new().add_signature(&jpeg_signature()).with_chunk_size(16).scan(&mut cursor);
    assert_eq!(result, vec![jpeg(15, 22)]);
}

#[test]
fn should_find_footer_split_across_chunk_boundary() {
    let data = vec![
        0xFF, 0xD8, 0xFF, 0xAA, 0xBB, 0xCC, 0xDD, 0xFF, // chunk 1
        0xD9, 0x00, 0x00, 0x00, 0x00, 0x00, 0x00, 0x00, // chunk 2
    ];
    let mut cursor = ByteSource::new(data);
    let result = Scanner::new().add_signature(&jpeg_signature()).with_chunk_size(8).scan(&mut cursor);
    assert_eq!(result, vec![jpeg(0, 9)]);
}

#[test]
fn should_find_multiple_jpegs_in_sequence() {
    let data = vec![
        0xFF, 0xD8, 0xFF, 0xAA, 0xFF, 0xD9, // JPEG 1
        0x11, 0x22, // gap
        0xFF, 0xD8, 0xFF, 0xBB, 0xFF, 0xD9, // JPEG 2
    ];
    let mut cursor = ByteSource::new(data);
    let result = Scanner::new().add_signature(&jpeg_signature()).with_chunk_size(4).scan(&mut cursor);
    assert_eq!(result, vec![jpeg(0, 6), jpeg(8, 14)]);
}

#[test]
fn should_find_jpeg_and_png_independently() {
    let data = vec![
        0xFF, 0xD8, 0xFF, 0xCC, 0xFF, 0xD9, // JPEG
        0x00, 0x00, // gap
        0x89, 0x50, 0x4E, 0x47, 0x0D, 0x0A, 0x1A, 0x0A, // PNG header
        0x11, 0x22, 0x33, 0x44, // PNG body
        0x49, 0x45, 0x4E, 0x44, 0xAE, 0x42, 0x60, 0x82, // PNG footer
    ];
    let mut cursor = ByteSource::new(data);
    let result = Scanner::new()
        .add_signature(&jpeg_signature())
        .add_signature(&png_signature())
        .with_chunk_size(16)
        .scan(&mut cursor);
    assert_eq!(result, vec![jpeg(0, 6), png(8, 28)]);
}

#[test]
fn should_not_duplicate_file_found_near_chunk_boundary() {
    let data = vec![
        0xAA, 0xBB, 0xFF, 0xD8, // chunk 1
        0xFF, 0xCC, 0xDD, 0xFF, 0xD9, 0xEE, // chunk 2
    ];
    let mut cursor = ByteSource::new(data);
    let result = Scanner::new().add_signature(&jpeg_signature()).with_chunk_size(4).scan(&mut cursor);
    assert_eq!(result.len(), 1, "expected exactly one file, got: {:?}", result);
    assert_eq!(result[0].offset_start, 2);
    assert_eq!(result[0].offset_end, 9);
}

#[test]
fn scan_without_signatures_finds_nothing() {
    let mut cursor = ByteSource::new(vec![0xFF, 0xD8, 0xFF, 0xFF, 0xD9]);
    assert!(Scanner::new().scan(&mut cursor).is_empty());
}

#[test]
fn scan_with_zero_chunk_size_finds_nothing() {
    let mut cursor = ByteSource::new(vec![0xFF, 0xD8, 0xFF, 0xFF, 0xD9]);
    let result = Scanner::new().add_signature(&jpeg_signature()).with_chunk_size(0).scan(&mut cursor);
    assert!(result.is_empty());
}

#[test]
fn scan_results_are_sorted_by_start_offset() {
    // A PNG that starts before a JPEG but is found by the second signature.
    let data = vec![
        0x89, 0x50, 0x4E, 0x47, 0x0D, 0x0A, 0x1A, 0x0A, // PNG header
        0xFF, 0xD8, 0xFF, 0x01, 0xFF, 0xD9, // JPEG inside the PNG body
        0x49, 0x45, 0x4E, 0x44, 0xAE, 0x42, 0x60, 0x82, // PNG footer
    ];
    let mut cursor = ByteSource::new(data);
    let result = Scanner::new()
        .add_signature(&jpeg_signature())
        .add_signature(&png_signature())
        .with_chunk_size(64)
        .scan(&mut cursor);
    assert_eq!(result, vec![png(0, 22), jpeg(8, 14)]);
}

#[test]
fn scan_leaves_unclosed_file_out() {
    let mut cursor = ByteSource::new(vec![0x00, 0xFF, 0xD8, 0xFF, 0x10, 0x20]);
    let result = Scanner::new().add_signature(&jpeg_signature()).with_chunk_size(4).scan(&mut cursor);
    assert!(result.is_empty());
}

// ── window ───────────────────────────────────────────────────────────────────

#[test]
fn absolute_offset_is_zero_for_first_window_with_no_overlap() {
    let mut window = ScanWindow::new(0, 4);
    let mut cursor = ByteSource::new(vec![0x01, 0x02, 0x03, 0x04]);
    let slice = window.next(&mut cursor).unwrap();
    assert_eq!(slice.absolute_offset(0), 0);
    assert_eq!(slice.absolute_offset(3), 3);
}

#[test]
fn absolute_offset_is_correct_for_second_window() {
    let mut window = ScanWindow::new(2, 4);
    let mut cursor = ByteSource::new(vec![0x01, 0x02, 0x03, 0x04, 0x05, 0x06, 0x07, 0x08]);
    let _ = window.next(&mut cursor);
    let slice = window.next(&mut cursor).unwrap();
    assert_eq!(slice.absolute_offset(0), 2);
    assert_eq!(slice.absolute_offset(2), 4);
    assert_eq!(slice.absolute_offset(4), 6);
}

#[test]
fn scan_window_returns_none_for_empty_source() {
    let mut window = ScanWindow::new(2, 4);
    let mut cursor = ByteSource::new(vec![]);
    assert!(window.next(&mut cursor).is_none());
}

#[test]
fn scan_window_first_window_contains_full_first_chunk() {
    let mut window = ScanWindow::new(2, 4);
    let mut cursor = ByteSource::new(vec![0x01, 0x02, 0x03, 0x04, 0x05, 0x06]);
    let slice = window.next(&mut cursor).unwrap();
    assert_eq!(slice.bytes(), &[0x01, 0x02, 0x03, 0x04]);
    assert_eq!(slice.absolute_offset(0), 0);
}

#[test]
fn scan_window_second_window_starts_with_overlap_from_first_chunk() {
    let mut window = ScanWindow::new(2, 4);
    let mut cursor = ByteSource::new(vec![0x01, 0x02, 0x03, 0x04, 0x05, 0x06, 0x07, 0x08]);
    let _ = window.next(&mut cursor);
    let slice = window.next(&mut cursor).unwrap();
    assert_eq!(slice.bytes(), &[0x03, 0x04, 0x05, 0x06, 0x07, 0x08]);
}

#[test]
fn scan_window_base_of_second_window_accounts_for_overlap() {
    let mut window = ScanWindow::new(2, 4);
    let mut cursor = ByteSource::new(vec![0x01, 0x02, 0x03, 0x04, 0x05, 0x06, 0x07, 0x08]);
    let _ = window.next(&mut cursor);
    let slice = window.next(&mut cursor).unwrap();
    assert_eq!(slice.absolute_offset(0), 2);
    assert_eq!(slice.absolute_offset(1), 3);
}

#[test]
fn scan_window_returns_none_after_source_is_exhausted() {
    let mut window = ScanWindow::new(0, 4);
    let mut cursor = ByteSource::new(vec![0x01, 0x02]);
    let _ = window.next(&mut cursor).unwrap();
    assert!(window.next(&mut cursor).is_none());
}

#[test]
fn scan_window_overlap_bridges_pattern_across_chunk_boundary() {
    let mut window = ScanWindow::new(1, 4);
    let mut cursor = ByteSource::new(vec![0x00, 0x00, 0x00, 0xAA, 0xBB, 0x00, 0x00, 0x00]);
    let _ = window.next(&mut cursor);
    let slice = window.next(&mut cursor).unwrap();
    assert_eq!(&slice.bytes()[0..2], &[0xAA, 0xBB]);
    assert_eq!(slice.absolute_offset(0), 3);
}

#[test]
fn scan_window_handles_source_smaller_than_chunk_size() {
    let mut window = ScanWindow::new(0, 8);
    let mut cursor = ByteSource::new(vec![0xAA, 0xBB, 0xCC]);
    let slice = window.next(&mut cursor).unwrap();
    assert_eq!(slice.bytes(), &[0xAA, 0xBB, 0xCC]);
    assert_eq!(slice.absolute_offset(2), 2);
}

// ── signature ────────────────────────────────────────────────────────────────

#[test]
fn jpeg_kind_name_is_jpeg() {
    assert_eq!(FileKind::Jpeg.name(), "JPEG");
}

#[test]
fn png_kind_name_is_png() {
    assert_eq!(FileKind::Png.name(), "PNG");
}

#[test]
fn pdf_kind_name_is_pdf() {
    assert_eq!(FileKind::Pdf.name(), "PDF");
}

#[test]
fn jpeg_kind_extension_is_jpg() {
    assert_eq!(FileKind::Jpeg.extension(), "jpg");
}

#[test]
fn png_kind_extension_is_png() {
    assert_eq!(FileKind::Png.extension(), "png");
}

#[test]
fn pdf_kind_extension_is_pdf() {
    assert_eq!(FileKind::Pdf.extension(), "pdf");
}

#[test]
fn jpeg_kind_display_matches_name() {
    assert_eq!(FileKind::Jpeg.to_string(), FileKind::Jpeg.name());
}

#[test]
fn png_kind_display_matches_name() {
    assert_eq!(FileKind::Png.to_string(), FileKind::Png.name());
}

#[test]
fn pdf_kind_display_matches_name() {
    assert_eq!(FileKind::Pdf.to_string(), FileKind::Pdf.name());
}

#[test]
fn jpeg_signature_kind_is_jpeg() {
    assert_eq!(jpeg_signature().kind, FileKind::Jpeg);
}

#[test]
fn jpeg_signature_header_is_soi_marker() {
    assert_eq!(jpeg_signature().header_pattern, &[0xFF, 0xD8, 0xFF]);
}

#[test]
fn jpeg_signature_footer_is_eoi_marker() {
    assert_eq!(jpeg_signature().footer_pattern, &[0xFF, 0xD9]);
}

#[test]
fn png_signature_kind_is_png() {
    assert_eq!(png_signature().kind, FileKind::Png);
}

#[test]
fn png_signature_header_is_eight_byte_magic() {
    assert_eq!(png_signature().header_pattern, &[0x89, 0x50, 0x4E, 0x47, 0x0D, 0x0A, 0x1A, 0x0A]);
}

#[test]
fn png_signature_footer_is_iend_chunk() {
    assert_eq!(png_signature().footer_pattern, &[0x49, 0x45, 0x4E, 0x44, 0xAE, 0x42, 0x60, 0x82]);
}

#[test]
fn pdf_signature_kind_is_pdf() {
    assert_eq!(pdf_signature().kind, FileKind::Pdf);
}

#[test]
fn pdf_signature_header_spells_percent_pdf() {
    assert_eq!(pdf_signature().header_pattern, b"%PDF");
}

#[test]
fn pdf_signature_footer_spells_double_percent_eof() {
    assert_eq!(pdf_signature().footer_pattern, b"%%EOF");
}

#[test]
fn zip_signature_kind_is_zip() {
    assert_eq!(zip_signature().kind, FileKind::Zip);
}

#[test]
fn zip_signature_header_is_pk_local_file_header() {
    assert_eq!(zip_signature().header_pattern, &[0x50, 0x4B, 0x03, 0x04]);
}

#[test]
fn zip_signature_footer_is_end_of_central_directory() {
    assert_eq!(zip_signature().footer_pattern, &[0x50, 0x4B, 0x05, 0x06]);
}

#[test]
fn zip_kind_name_is_zip() {
    assert_eq!(FileKind::Zip.name(), "ZIP");
}

#[test]
fn zip_kind_extension_is_zip() {
    assert_eq!(FileKind::Zip.extension(), "zip");
}

#[test]
fn zip_kind_display_matches_name() {
    assert_eq!(FileKind::Zip.to_string(), FileKind::Zip.name());
}

#[test]
fn supported_signatures_includes_jpeg() {
    let kinds: Vec<FileKind> = supported_signatures().iter().map(|sig| sig.kind).collect();
    assert!(kinds.contains(&FileKind::Jpeg));
}

#[test]
fn supported_signatures_includes_png() {
    let kinds: Vec<FileKind> = supported_signatures().iter().map(|sig| sig.kind).collect();
    assert!(kinds.contains(&FileKind::Png));
}

#[test]
fn supported_signatures_includes_pdf() {
    let kinds: Vec<FileKind> = supported_signatures().iter().map(|sig| sig.kind).collect();
    assert!(kinds.contains(&FileKind::Pdf));
}

#[test]
fn supported_signatures_includes_zip() {
    let kinds: Vec<FileKind> = supported_signatures().iter().map(|sig| sig.kind).collect();
    assert!(kinds.contains(&FileKind::Zip));
}

#[test]
fn carved_file_size_is_the_range_length() {
    assert_eq!(jpeg(3, 9).size(), 6);
    assert_eq!(jpeg(9, 3).size(), 0);
}

// ── extractor ────────────────────────────────────────────────────────────────

#[test]
fn should_extract_bytes_from_beginning_of_source() {
    let source = vec![0xFF, 0xD8, 0xFF, 0xAA, 0xBB, 0xFF, 0xD9];
    let extracted = extract_bytes(&source, 0, 7);
    assert_eq!(extracted, source);
}

#[test]
fn should_extract_bytes_from_middle_of_source() {
    let prefix = vec![0x00, 0x11, 0x22];
    let file_bytes = vec![0xFF, 0xD8, 0xFF, 0xAA, 0xFF, 0xD9];
    let suffix = vec![0x33, 0x44];
    let mut source = prefix.clone();
    source.extend_from_slice(&file_bytes);
    source.extend_from_slice(&suffix);
    let start = prefix.len() as u64;
    let end = start + file_bytes.len() as u64;
    let extracted = extract_bytes(&source, start, end);
    assert_eq!(extracted, file_bytes);
}

#[test]
fn should_return_exact_byte_count() {
    let source = vec![0xFF, 0xD8, 0xFF, 0xAA, 0xBB, 0xFF, 0xD9];
    let mut cursor = ByteSource::new(source.clone());
    let carved_file = carved(FileKind::Jpeg, 0, 7);
    let mut output: Vec<u8> = Vec::new();
    let bytes_written = Extractor::new().extract(&mut cursor, &carved_file, &mut output).unwrap();
    assert_eq!(bytes_written, 7);
}

#[test]
fn should_extract_single_byte_file() {
    let source = vec![0x00, 0xAB, 0x00];
    let extracted = extract_bytes(&source, 1, 2);
    assert_eq!(extracted, vec![0xAB]);
}

#[test]
fn should_extract_correctly_when_file_spans_multiple_chunks() {
    let prefix = vec![0x00u8; 10];
    let file_bytes: Vec<u8> = (0x00..0x14).collect();
    let mut source = prefix.clone();
    source.extend_from_slice(&file_bytes);
    let start = prefix.len() as u64;
    let end = start + file_bytes.len() as u64;
    let mut cursor = ByteSource::new(source);
    let carved_file = carved(FileKind::Jpeg, start, end);
    let mut output: Vec<u8> = Vec::new();
    Extractor::new().with_chunk_size(4).extract(&mut cursor, &carved_file, &mut output).unwrap();
    assert_eq!(output, file_bytes);
}

#[test]
fn should_extract_correctly_when_chunk_size_exceeds_file_size() {
    let file_bytes = vec![0xAA, 0xBB, 0xCC];
    let source = file_bytes.clone();
    let extracted = extract_bytes(&source, 0, 3);
    assert_eq!(extracted, file_bytes);
}

#[test]
fn should_extract_png_bytes_correctly() {
    let png_header = vec![0x89, 0x50, 0x4E, 0x47, 0x0D, 0x0A, 0x1A, 0x0A];
    let png_footer = vec![0x49, 0x45, 0x4E, 0x44, 0xAE, 0x42, 0x60, 0x82];
    let mut file_bytes = png_header.clone();
    file_bytes.extend_from_slice(&[0x11, 0x22, 0x33]);
    file_bytes.extend_from_slice(&png_footer);
    let prefix = vec![0x00u8; 5];
    let mut source = prefix.clone();
    source.extend_from_slice(&file_bytes);
    let start = prefix.len() as u64;
    let end = start + file_bytes.len() as u64;
    let mut cursor = ByteSource::new(source);
    let carved_file = carved(FileKind::Png, start, end);
    let mut output: Vec<u8> = Vec::new();
    Extractor::new().extract(&mut cursor, &carved_file, &mut output).unwrap();
    assert_eq!(output, file_bytes);
}

#[test]
fn should_return_error_for_inverted_range() {
    let mut cursor = ByteSource::new(vec![0xAA, 0xBB, 0xCC]);
    let carved_file = carved(FileKind::Jpeg, 5, 2);
    let mut output: Vec<u8> = Vec::new();
    let result = Extractor::new().extract(&mut cursor, &carved_file, &mut output);
    assert!(result.is_err());
    assert_eq!(result, Err(CarverError::InvalidRange { start: 5, end: 2 }));
}

#[test]
fn should_return_error_for_zero_length_range() {
    let mut cursor = ByteSource::new(vec![0xAA, 0xBB, 0xCC]);
    let carved_file = carved(FileKind::Jpeg, 2, 2);
    let mut output: Vec<u8> = Vec::new();
    let result = Extractor::new().extract(&mut cursor, &carved_file, &mut output);
    assert!(result.is_err());
}

#[test]
fn should_return_error_when_source_ends_before_offset_end() {
    let mut cursor = ByteSource::new(vec![0xFF, 0xD8, 0xFF, 0xAA]);
    let carved_file = carved(FileKind::Jpeg, 0, 10);
    let mut output: Vec<u8> = Vec::new();
    let result = Extractor::new().extract(&mut cursor, &carved_file, &mut output);
    assert!(result.is_err());
    assert_eq!(result, Err(CarverError::ExtractionFailed { remaining: 6, offset_start: 0 }));
    assert_eq!(output, vec![0xFF, 0xD8, 0xFF, 0xAA]);
}

#[test]
fn extraction_result_does_not_depend_on_chunk_size() {
    let source: Vec<u8> = (0..50).collect();
    let carved_file = carved(FileKind::Zip, 7, 41);
    let mut reference: Option<Vec<u8>> = None;
    for chunk in [0usize, 1, 3, 7, 64] {
        let mut cursor = ByteSource::new(source.clone());
        let mut output = Vec::new();
        let written = Extractor::new()
            .with_chunk_size(chunk)
            .extract(&mut cursor, &carved_file, &mut output)
            .unwrap();
        assert_eq!(written, 34);
        match &reference {
            None => reference = Some(output),
            Some(r) => assert_eq!(&output, r),
        }
    }
}

// ── laws on concrete values ──────────────────────────────────────────────────

#[test]
fn scan_reports_each_start_once_for_every_chunk_size() {
    // Three JPEGs and a PDF, scanned with every chunk size from 5 (the
    // longest pattern, so each window carries a full overlap) to 40: starts
    // strictly increase, so no file is reported twice.
    let data = vec![
        0xFF, 0xD8, 0xFF, 0x00, 0xFF, 0xD9, // jpeg 0..6
        0x25, 0x50, 0x44, 0x46, 0x01, 0x25, 0x25, 0x45, 0x4F, 0x46, // pdf 6..16
        0xFF, 0xD8, 0xFF, 0xFF, 0xD8, 0xFF, 0x02, 0xFF, 0xD9, 0xFF, 0xD9, // jpegs at 16 and 19
    ];
    for chunk in 5..=40usize {
        let mut cursor = ByteSource::new(data.clone());
        let result = Scanner::new()
            .add_signature(&jpeg_signature())
            .add_signature(&pdf_signature())
            .with_chunk_size(chunk)
            .scan(&mut cursor);
        for pair in result.windows(2) {
            assert!(pair[0].offset_start < pair[1].offset_start, "chunk {}: {:?}", chunk, result);
        }
        let starts: Vec<u64> = result.iter().map(|c| c.offset_start).collect();
        assert_eq!(starts, vec![0, 6, 16, 19], "chunk {}", chunk);
    }
}

#[test]
fn every_short_run_lies_within_one_window() {
    // With an overlap of 2 and chunks of 3 bytes, every run of up to 3 bytes
    // of the source appears whole in some window, at its absolute offset.
    let data: Vec<u8> = (0u8..20).collect();
    let mut source = ByteSource::new(data.clone());
    let mut window = ScanWindow::new(2, 3);
    let mut windows = Vec::new();
    while let Some(w) = window.next(&mut source) {
        windows.push((w.absolute_offset(0), w.bytes().to_vec()));
    }
    for (base, bytes) in &windows {
        let b = *base as usize;
        assert_eq!(&data[b..b + bytes.len()], bytes.as_slice());
    }
    for len in 1..=3usize {
        for i in 0..=(data.len() - len) {
            let covered = windows.iter().any(|(base, bytes)| {
                let b = *base as usize;
                b <= i && i + len <= b + bytes.len()
            });
            assert!(covered, "run at {} of length {} is split", i, len);
        }
    }
}

#[test]
fn default_scanner_and_extractor_match_new() {
    let scanner = Scanner::default();
    assert_eq!(scanner.chunk_size(), DEFAULT_CHUNK_SIZE);
    assert!(scanner.finds_nothing());
    assert_eq!(Extractor::default().effective_chunk_size(), DEFAULT_CHUNK_SIZE);
}

#[test]
fn streaming_a_scan_window_by_window_gives_the_scan_result() {
    let data = vec![
        0x00, 0xFF, 0xD8, 0xFF, 0x11, 0xFF, 0xD9, 0x00, // jpeg 1..7
        0x89, 0x50, 0x4E, 0x47, 0x0D, 0x0A, 0x1A, 0x0A, 0x22, // png from 8
        0x49, 0x45, 0x4E, 0x44, 0xAE, 0x42, 0x60, 0x82,
    ];
    let scanner = Scanner::new()
        .add_signature(&jpeg_signature())
        .add_signature(&png_signature())
        .with_chunk_size(8);
    assert!(!scanner.finds_nothing());
    let mut window = scanner.start_window();
    let mut state = ScanState::new();
    for chunk in data.chunks(scanner.chunk_size()) {
        let slice = window.push_chunk(chunk).expect("non-empty chunk");
        scanner.process_window(&mut state, &slice);
    }
    assert!(window.push_chunk(&[]).is_none());
    let streamed = scanner.finish(state);
    let mut source = ByteSource::new(data);
    assert_eq!(streamed, scanner.scan(&mut source));
    assert_eq!(streamed, vec![jpeg(1, 7), png(8, 25)]);
}

#[test]
fn find_in_on_a_buffer_shorter_than_the_pattern_finds_nothing() {
    let matcher = PatternMatcher::new(&[0xFF, 0xD8]);
    assert_eq!(matcher.find_in(&[0xFF], 0), None);
    assert_eq!(matcher.find_in(&[], 0), None);
    assert!(matcher.find_all_in(&[0xFF]).is_empty());
}

#[test]
fn footer_overlapping_its_own_header_does_not_close_the_file() {
    // FF D8 FF D9: the footer FF D9 starts inside the header FF D8 FF, so no
    // file ends there, whatever the chunk size.
    for chunk in [1usize, 2, 3, 4, 64] {
        let mut cursor = ByteSource::new(vec![0xFF, 0xD8, 0xFF, 0xD9]);
        let result = Scanner::new().add_signature(&jpeg_signature()).with_chunk_size(chunk).scan(&mut cursor);
        assert!(result.is_empty(), "chunk {}: {:?}", chunk, result);
    }
}

#[test]
fn pending_file_closes_only_on_a_footer_after_its_header() {
    // A JPEG footer at 9..11 sits before a JPEG header at 13; the file opened
    // at 13 closes on the footer at 20..22, not on the earlier one.
    let mut data = vec![0u8; 24];
    data[9] = 0xFF;
    data[10] = 0xD9;
    data[13] = 0xFF;
    data[14] = 0xD8;
    data[15] = 0xFF;
    data[20] = 0xFF;
    data[21] = 0xD9;
    for chunk in 7..=24usize {
        let mut cursor = ByteSource::new(data.clone());
        let result = Scanner::new()
            .add_signature(&jpeg_signature())
            .add_signature(&png_signature())
            .with_chunk_size(chunk)
            .scan(&mut cursor);
        assert_eq!(result, vec![jpeg(13, 22)], "chunk {}", chunk);
    }
}

#[test]
fn nested_headers_of_different_kinds_give_one_file_per_kind() {
    // A PNG header that begins with a JPEG header: both kinds open a file at
    // 0, each reported once, for chunks long enough to hold the longer header.
    let short = Signature { kind: FileKind::Jpeg, header_pattern: vec![1, 2], footer_pattern: vec![9] };
    let long = Signature { kind: FileKind::Png, header_pattern: vec![1, 2, 3], footer_pattern: vec![8] };
    let data = vec![1u8, 2, 3, 9, 8, 0, 0];
    for chunk in 3..=8usize {
        let mut cursor = ByteSource::new(data.clone());
        let result =
            Scanner::new().add_signature(&short).add_signature(&long).with_chunk_size(chunk).scan(&mut cursor);
        assert_eq!(result, vec![carved(FileKind::Jpeg, 0, 4), carved(FileKind::Png, 0, 5)], "chunk {}", chunk);
    }
}

#[test]
fn extract_with_an_inverted_range_leaves_the_source_where_it_was() {
    let mut source = ByteSource::new(vec![1, 2, 3, 4, 5, 6]);
    source.seek(3);
    let mut out = Vec::new();
    let err = Extractor::new().extract(&mut source, &carved(FileKind::Jpeg, 5, 2), &mut out).unwrap_err();
    assert_eq!(err, CarverError::InvalidRange { start: 5, end: 2 });
    assert_eq!(source.position(), 3);
    assert!(out.is_empty());
    let mut out = Vec::new();
    assert_eq!(Extractor::new().extract(&mut source, &carved(FileKind::Jpeg, 1, 4), &mut out), Ok(3));
    assert_eq!(source.position(), 4);
    let mut out = Vec::new();
    assert!(Extractor::new().extract(&mut source, &carved(FileKind::Jpeg, 4, 9), &mut out).is_err());
    assert_eq!(source.position(), 6);
}

#[test]
fn carved_files_are_named_by_index_and_offset() {
    assert_eq!(png(4096, 5000).file_name(3), "file_0003_4096.png");
    assert_eq!(jpeg(0, 10).file_name(0), "file_0000_0.jpg");
    let pdf = CarvedFile { kind: FileKind::Pdf, offset_start: 123456789, offset_end: 123456999 };
    assert_eq!(pdf.file_name(42), "file_0042_123456789.pdf");
    let zip = CarvedFile { kind: FileKind::Zip, offset_start: 7, offset_end: 9 };
    assert_eq!(zip.file_name(12345), "file_12345_7.zip");
    assert_eq!(zip.file_name(9999), "file_9999_7.zip");
}

#[test]
fn windows_end_where_reading_stopped_and_hold_the_source_bytes() {
    let data: Vec<u8> = (0u8..23).map(|b| b.wrapping_mul(7)).collect();
    for overlap in 0..4usize {
        for chunk in 1..6usize {
            let mut source = ByteSource::new(data.clone());
            let mut window = ScanWindow::new(overlap, chunk);
            let mut count = 0usize;
            while let Some(w) = window.next(&mut source) {
                count += 1;
                let read = (count * chunk).min(data.len());
                let base = w.absolute_offset(0) as usize;
                assert_eq!(base + w.bytes().len(), read, "overlap {} chunk {}", overlap, chunk);
                assert!(w.bytes().len() <= overlap + chunk);
                if count == 1 {
                    assert_eq!(base, 0);
                }
                assert_eq!(&data[base..read], w.bytes());
            }
            assert_eq!(count, (data.len() + chunk - 1) / chunk, "overlap {} chunk {}", overlap, chunk);
        }
    }
}

#[test]
fn lone_signature_scan_is_the_same_for_every_chunk_size() {
    // One JPEG header at 2, footers at 7 and 10: the file runs from the
    // header to the end of the first footer after it, whatever the chunks.
    let data = vec![0u8, 0, 0xFF, 0xD8, 0xFF, 0, 0, 0xFF, 0xD9, 0, 0xFF, 0xD9, 0];
    for chunk in 2..=16usize {
        let mut cursor = ByteSource::new(data.clone());
        let result = Scanner::new().add_signature(&jpeg_signature()).with_chunk_size(chunk).scan(&mut cursor);
        assert_eq!(result, vec![jpeg(2, 9)], "chunk {}", chunk);
    }
    // Without a footer after the header nothing is reported.
    let data = vec![0xFF, 0xD9, 0, 0xFF, 0xD8, 0xFF, 0, 0];
    for chunk in 2..=9usize {
        let mut cursor = ByteSource::new(data.clone());
        let result = Scanner::new().add_signature(&jpeg_signature()).with_chunk_size(chunk).scan(&mut cursor);
        assert!(result.is_empty(), "chunk {}", chunk);
    }
}

#[test]
fn scan_with_signatures_of_different_kinds_ignores_chunk_boundaries() {
    // One header per kind, none the beginning of another: every chunk size
    // of at least the overlap (here 1) gives the same files.
    let jpg = Signature { kind: FileKind::Jpeg, header_pattern: vec![1, 2], footer_pattern: vec![9, 9] };
    let png = Signature { kind: FileKind::Png, header_pattern: vec![3, 4], footer_pattern: vec![8] };
    let pdf = Signature { kind: FileKind::Pdf, header_pattern: vec![5], footer_pattern: vec![7] };
    let data = vec![1u8, 2, 3, 4, 0, 8, 5, 9, 9, 7, 8, 0];
    for chunk in 1..=13usize {
        let mut cursor = ByteSource::new(data.clone());
        let result = Scanner::new()
            .add_signature(&jpg)
            .add_signature(&png)
            .add_signature(&pdf)
            .with_chunk_size(chunk)
            .scan(&mut cursor);
        assert_eq!(
            result,
            vec![carved(FileKind::Jpeg, 0, 9), carved(FileKind::Png, 2, 6), carved(FileKind::Pdf, 6, 10)],
            "chunk {}",
            chunk
        );
    }
}
