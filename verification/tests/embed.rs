use mikke::embed::{
    embeddings_layout, normalize_flag, row_bits, selected_rows, EmbedError, EmbeddingLayout, TensorInfo, MAX_TOKENS,
};
use mikke::json::JsonValue;

fn safetensors(header: &str, data: &[u8]) -> Vec<u8> {
    let mut out = (header.len() as u64).to_le_bytes().to_vec();
    out.extend_from_slice(header.as_bytes());
    out.extend_from_slice(data);
    out
}

fn f32_bytes(v: &[f32]) -> Vec<u8> {
    v.iter().flat_map(|x| x.to_le_bytes()).collect()
}

fn tensor(dtype: &str, shape: Vec<usize>, start: usize, end: usize) -> TensorInfo {
    TensorInfo { dtype: dtype.to_string(), shape, start, end }
}

fn format_message(r: Result<EmbeddingLayout, EmbedError>) -> String {
    match r {
        Err(EmbedError::Format(m)) => m,
        _ => panic!("expected a format error"),
    }
}

#[test]
fn layout_of_a_2d_f32_tensor() {
    let header = r#"{"embeddings":{"dtype":"F32","shape":[2,3],"data_offsets":[0,24]}}"#;
    let data = f32_bytes(&[1.0, 2.0, 3.0, 4.0, 5.0, 6.0]);
    let buf = safetensors(header, &data);
    let info = tensor("F32", vec![2, 3], 0, 24);
    let layout = embeddings_layout(buf.len(), header.len(), Some(&info)).unwrap();
    assert_eq!(layout, EmbeddingLayout { data_start: 8 + header.len(), rows: 2, dim: 3 });
    let row = row_bits(&buf, layout, 1);
    assert_eq!(row, vec![4.0f32.to_bits(), 5.0f32.to_bits(), 6.0f32.to_bits()]);
}

#[test]
fn layout_errors() {
    let f16 = tensor("F16", vec![2, 3], 0, 12);
    assert_eq!(format_message(embeddings_layout(100, 50, Some(&f16))), "unsupported dtype F16 (expected F32)");
    assert_eq!(format_message(embeddings_layout(100, 50, None)), "tensor `embeddings` not found");
    let flat = tensor("F32", vec![6], 0, 24);
    assert_eq!(format_message(embeddings_layout(100, 50, Some(&flat))), "embeddings tensor is not 2-D");
    // the rows would run past the end of the file
    let long = tensor("F32", vec![2, 3], 0, 24);
    assert_eq!(
        format_message(embeddings_layout(8 + 50 + 20, 50, Some(&long))),
        "invalid shape, data type, or offset for tensor"
    );
    // the byte range is shorter than the shape asks
    let short = tensor("F32", vec![2, 3], 0, 20);
    assert_eq!(
        format_message(embeddings_layout(1000, 50, Some(&short))),
        "invalid shape, data type, or offset for tensor"
    );
    // huge dimensions are refused, not multiplied into an overflow
    let huge = tensor("F32", vec![usize::MAX, usize::MAX], 0, 24);
    assert_eq!(
        format_message(embeddings_layout(1000, 50, Some(&huge))),
        "invalid shape, data type, or offset for tensor"
    );
    // an empty matrix lies anywhere the range does
    let empty = tensor("F32", vec![0, 256], 4, 4);
    assert_eq!(embeddings_layout(100, 50, Some(&empty)).unwrap(), EmbeddingLayout { data_start: 62, rows: 0, dim: 256 });
}

#[test]
fn selected_rows_drop_unknown_ids_and_truncate() {
    assert_eq!(selected_rows(&vec![3, 9, 1, 5], 5), vec![3, 1]);
    let ids: Vec<u32> = (0..600).collect();
    let rows = selected_rows(&ids, 1000);
    assert_eq!(rows.len(), MAX_TOKENS);
    assert_eq!(rows[511], 511);
    assert!(selected_rows(&vec![], 5).is_empty());
}

#[test]
fn normalize_flag_reads_config() {
    assert!(normalize_flag(None));
    let off = JsonValue::Object(vec![("normalize".to_string(), JsonValue::Bool(false))]);
    assert!(!normalize_flag(Some(&off)));
    let odd = JsonValue::Object(vec![("normalize".to_string(), JsonValue::Str("no".to_string()))]);
    assert!(normalize_flag(Some(&odd)));
    let absent = JsonValue::Object(vec![("dim".to_string(), JsonValue::Number("256".to_string()))]);
    assert!(normalize_flag(Some(&absent)));
    assert!(normalize_flag(Some(&JsonValue::Null)));
}
