use near_graph::error::ComError;
use near_graph::io::{get_datatype, is_known_datatype, ColumnType, CsvReader, Header, ReadOption};

#[test]
fn default_read_option_names_the_endpoint_columns() {
    let read = ReadOption::default();
    assert!(read.has_header);
    assert!(read.header.is_empty());
    assert!(read.include_columns.is_empty());
    assert_eq!(read.from_column, "from");
    assert_eq!(read.to_column, "to");
    let _reader = CsvReader::new();
}

#[test]
fn type_names_map_to_column_types() {
    assert_eq!(get_datatype(""), ColumnType::Null);
    assert_eq!(get_datatype("empty"), ColumnType::Null);
    assert_eq!(get_datatype("int"), ColumnType::Int32);
    assert_eq!(get_datatype("uint"), ColumnType::UInt32);
    assert_eq!(get_datatype("u32"), ColumnType::UInt32);
    assert_eq!(get_datatype("long long"), ColumnType::Int64);
    assert_eq!(get_datatype("f32"), ColumnType::Float32);
    assert_eq!(get_datatype("float64"), ColumnType::Float64);
    assert_eq!(get_datatype("string"), ColumnType::Utf8);
    assert!(is_known_datatype("double"));
    assert!(!is_known_datatype("decimal"));
}

#[test]
fn header_splits_each_field_on_its_first_colon() {
    let header = Header::from(vec!["from:uint", "to:uint", "str_data:string"]);
    assert_eq!(header.0.len(), 3);
    assert_eq!(header.0[0].name, "from");
    assert_eq!(header.0[0].data_type, "uint");
    assert_eq!(header.0[1].name, "to");
    assert_eq!(header.0[1].data_type, "uint");
    assert_eq!(header.0[2].name, "str_data");
    assert_eq!(header.0[2].data_type, "string");
}

#[test]
fn test_read_empty() {
    // The plain edge-list header: endpoints only, nothing else kept.
    let mut read = ReadOption::default();
    read.header = "from:uint,to:uint".into();
    let fields: Vec<&str> = read.header.split(',').collect();
    let header = Header::from(fields);
    assert_eq!(header.0.len(), 2);
    assert_eq!(header.0[0].name, "from");
    assert_eq!(header.0[1].name, "to");
    assert_eq!(get_datatype(&header.0[0].data_type), ColumnType::UInt32);
    assert_eq!(get_datatype(&header.0[1].data_type), ColumnType::UInt32);
}

#[test]
fn errors_describe_themselves() {
    assert_eq!(ComError::PeerUnreachable.describe(), "peer unreachable");
    assert_eq!(ComError::Protocol.describe(), "protocol violation");
    assert_eq!(ComError::Codec.describe(), "malformed payload");
    assert_eq!(ComError::Config.describe(), "inconsistent configuration");
}
