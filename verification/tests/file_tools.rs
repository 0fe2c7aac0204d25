use movie_search::csvio::{
    csv_records_to_objects, json_to_csv_table, parse_csv_cell, read_csv, write_csv, CsvCell, CsvValue,
};
use movie_search::images::{image_metadata, image_transform, try_image_transform, try_image_transform_params, ImageOp};
use movie_search::json::{JsonNumber, JsonValue};
use movie_search::tools::{image_format_from_query, OutputFormat};
use movie_search::validate::{matches_json_type, validate_document, validate_simple_schema, value_kind, Validation};

fn num(n: i64) -> JsonValue {
    JsonValue::Number(JsonNumber { text: n.to_string(), integer: true })
}

fn float(text: &str) -> JsonValue {
    JsonValue::Number(JsonNumber { text: text.to_string(), integer: false })
}

fn text(s: &str) -> JsonValue {
    JsonValue::String(s.to_string())
}

fn obj(members: Vec<(&str, JsonValue)>) -> JsonValue {
    JsonValue::Object(members.into_iter().map(|(k, v)| (k.to_string(), v)).collect())
}

#[test]
fn kinds_and_types() {
    assert_eq!(value_kind(&JsonValue::Null), "null");
    assert_eq!(value_kind(&JsonValue::Bool(true)), "boolean");
    assert_eq!(value_kind(&num(1)), "number");
    assert_eq!(value_kind(&text("a")), "string");
    assert_eq!(value_kind(&JsonValue::Array(vec![])), "array");
    assert_eq!(value_kind(&obj(vec![])), "object");
    assert!(matches_json_type(&num(3), "integer"));
    assert!(matches_json_type(&num(3), "int"));
    assert!(!matches_json_type(&float("3.5"), "integer"));
    assert!(matches_json_type(&float("3.5"), "number"));
    assert!(matches_json_type(&JsonValue::Bool(false), "bool"));
    assert!(!matches_json_type(&text("x"), "whatever"));
}

#[test]
fn simple_schema_reports_type_required_and_property_errors() {
    let schema = obj(vec![
        ("properties", obj(vec![("id", obj(vec![("type", text("integer"))])), ("title", obj(vec![("type", text("string"))]))])),
        ("required", JsonValue::Array(vec![text("id"), text("title"), num(7)])),
        ("type", text("object")),
    ]);
    let document = obj(vec![("id", text("seven"))]);
    let errors = validate_simple_schema(&schema, &document);
    assert_eq!(
        errors,
        vec![
            "missing required field 'title'".to_string(),
            "field 'id' type is string, expected integer".to_string(),
        ]
    );
    let errors = validate_simple_schema(&schema, &JsonValue::Array(vec![]));
    assert_eq!(
        errors,
        vec![
            "document type is array, expected object".to_string(),
            "required can only be checked against an object document".to_string(),
        ]
    );
    assert!(validate_simple_schema(&schema, &obj(vec![("id", num(1)), ("title", text("t"))])).is_empty());
}

#[test]
fn documents_are_validated_in_schema_mode_or_by_kind() {
    let wrapped = obj(vec![("document", num(1)), ("schema", obj(vec![("type", text("string"))]))]);
    match validate_document(&wrapped) {
        Validation::Schema(errors) => assert_eq!(errors, vec!["document type is number, expected string".to_string()]),
        Validation::Kind(_) => panic!("expected schema mode"),
    }
    match validate_document(&obj(vec![("schema", num(1))])) {
        Validation::Kind(k) => assert_eq!(k, "object"),
        Validation::Schema(_) => panic!("expected kind mode"),
    }
}

#[test]
fn json_to_csv_builds_sorted_headers_and_cells() {
    let rows = JsonValue::Array(vec![
        obj(vec![("b", num(1)), ("a", text("x"))]),
        obj(vec![("c", JsonValue::Bool(true)), ("a", JsonValue::Array(vec![num(1)]))]),
    ]);
    let table = json_to_csv_table(&rows).unwrap();
    assert_eq!(table.headers, vec!["a".to_string(), "b".to_string(), "c".to_string()]);
    let cells: Vec<Vec<String>> = table
        .rows
        .iter()
        .map(|row| {
            row.iter()
                .map(|c| match c {
                    CsvCell::Text(s) => s.clone(),
                    CsvCell::Nested(_) => "<json>".to_string(),
                })
                .collect()
        })
        .collect();
    assert_eq!(cells, vec![vec!["x", "1", ""], vec!["<json>", "", "true"]]);
    let err = json_to_csv_table(&num(1)).unwrap_err();
    assert_eq!((err.status, err.code), (400, "invalid_input"));
    assert_eq!(err.message, "expected a JSON array of flat objects");
    let err = json_to_csv_table(&JsonValue::Array(vec![num(1)])).unwrap_err();
    assert_eq!(err.message, "each array item must be an object");
}

#[test]
fn csv_text_round_trip() {
    let headers = vec!["a".to_string(), "b".to_string()];
    let rows = vec![vec!["1".to_string(), "x,y".to_string()]];
    let text = write_csv(&headers, &rows).unwrap();
    assert_eq!(text, "a,b\n1,\"x,y\"\n");
    let (h, records) = read_csv(text.as_bytes()).unwrap();
    assert_eq!(h, headers);
    assert_eq!(records, rows);
}

#[test]
fn csv_rows_must_match_the_header_and_bad_csv_is_refused() {
    let headers = vec!["a".to_string(), "b".to_string()];
    let err = write_csv(&headers, &vec![vec!["1".to_string()]]).unwrap_err();
    assert_eq!((err.status, err.code), (500, "csv_write_error"));
    let (h, records) = read_csv(b"x,y\n").unwrap();
    assert_eq!(h, vec!["x".to_string(), "y".to_string()]);
    assert!(records.is_empty());
    let err = read_csv(b"x,y\n1,2,3\n").unwrap_err();
    assert_eq!((err.status, err.code), (400, "invalid_csv_record"));
    let err = read_csv(b"\xff,y\n").unwrap_err();
    assert_eq!((err.status, err.code), (400, "invalid_csv"));
}

#[test]
fn csv_cells_read_as_json_scalars() {
    assert!(matches!(parse_csv_cell(""), CsvValue::Null));
    assert!(matches!(parse_csv_cell("TRUE"), CsvValue::Bool(true)));
    assert!(matches!(parse_csv_cell("False"), CsvValue::Bool(false)));
    assert!(matches!(parse_csv_cell("-42"), CsvValue::Integer(-42)));
    assert!(matches!(parse_csv_cell("+7"), CsvValue::Integer(7)));
    assert!(matches!(parse_csv_cell("-9223372036854775808"), CsvValue::Integer(i64::MIN)));
    assert!(matches!(parse_csv_cell("9223372036854775808"), CsvValue::Unresolved(_)));
    assert!(matches!(parse_csv_cell("-+1"), CsvValue::Unresolved(_)));
    assert!(matches!(parse_csv_cell("1.5"), CsvValue::Unresolved(_)));
    let objects = csv_records_to_objects(
        &vec!["a".to_string(), "b".to_string()],
        &vec![vec!["1".to_string()], vec!["".to_string(), "yes".to_string(), "extra".to_string()]],
    );
    assert_eq!(objects.len(), 2);
    assert!(matches!(objects[0][1].1, CsvValue::Null));
    assert!(matches!(objects[0][0].1, CsvValue::Integer(1)));
    assert!(matches!(&objects[1][1].1, CsvValue::Unresolved(s) if s == "yes"));
    assert_eq!(objects[1].len(), 2);
}

#[test]
fn image_formats_from_the_query() {
    assert_eq!(image_format_from_query(""), Some(OutputFormat::Png));
    assert_eq!(image_format_from_query("format=jpg"), Some(OutputFormat::Jpeg));
    assert_eq!(image_format_from_query("format=jpeg"), Some(OutputFormat::Jpeg));
    assert_eq!(image_format_from_query("format=png"), Some(OutputFormat::Png));
    assert_eq!(image_format_from_query("format=gif"), None);
}

fn tiny_png() -> Vec<u8> {
    let img = image::DynamicImage::ImageRgb8(image::RgbImage::new(4, 2));
    let mut cursor = std::io::Cursor::new(Vec::new());
    img.write_to(&mut cursor, image::ImageFormat::Png).unwrap();
    cursor.into_inner()
}

#[test]
fn image_metadata_and_transforms() {
    let png = tiny_png();
    let info = image_metadata(&png).unwrap();
    assert_eq!((info.width, info.height), (4, 2));
    assert_eq!(info.color, "Rgb8");
    let err = image_metadata(b"not an image").unwrap_err();
    assert_eq!((err.status, err.code), (400, "invalid_image"));

    let (bytes, ct) = image_transform(&png, "format=jpeg", ImageOp::Grayscale).unwrap();
    assert_eq!(ct, "image/jpeg");
    assert!(!bytes.is_empty());

    let (resized, ct) = image_transform(&png, "width=2&height=1&format=bmp", ImageOp::Resize).unwrap();
    assert_eq!(ct, "image/png");
    let info = image_metadata(&resized).unwrap();
    assert_eq!((info.width, info.height), (2, 1));

    let err = image_transform(&png, "height=3", ImageOp::Resize).unwrap_err();
    assert_eq!(err.code, "missing_width");
    assert_eq!(err.message, "query parameter 'width' must be a positive integer");
    let err = image_transform(&png, "width=3&height=0", ImageOp::Resize).unwrap_err();
    assert_eq!(err.code, "missing_height");
}

#[test]
fn oversized_resizes_are_refused_before_the_image_crate_runs() {
    let png = tiny_png();
    assert!(try_image_transform(&png, "width=4294967295&height=4294967295", ImageOp::Resize).is_none());
    assert!(try_image_transform_params(&png, None, Some(u32::MAX), Some(u32::MAX), ImageOp::Resize).is_none());
    let (resized, _) = try_image_transform(&png, "width=3&height=3", ImageOp::Resize).unwrap().unwrap();
    let info = image_metadata(&resized).unwrap();
    assert_eq!((info.width, info.height), (3, 3));
    let err = try_image_transform_params(b"junk", None, Some(u32::MAX), Some(u32::MAX), ImageOp::Resize)
        .unwrap()
        .unwrap_err();
    assert_eq!(err.code, "invalid_image");
    assert!(try_image_transform(&png, "width=4294967295&height=4294967295", ImageOp::Grayscale).is_some());
}
