use duckdb_kart::kart::{
    base64_urlsafe_decode, base64_urlsafe_decode_slice, compile_legend, dataset_info, decode_pk_from_filename,
    decode_pk_into, gpkg_to_wkb, str_eq, ColumnSchema, ColumnSource, Dataset, KartError, Legend,
};
use duckdb_kart::msgpack::{DecodeError, Value};

fn col(id: &str, name: &str, data_type: &str) -> ColumnSchema {
    ColumnSchema {
        id: id.to_string(),
        name: name.to_string(),
        data_type: data_type.to_string(),
        primary_key_index: None,
        size: None,
        geometry_type: None,
        geometry_crs: None,
    }
}

#[test]
fn base64_decodes_groups_and_tails() {
    assert_eq!(base64_urlsafe_decode("AQID").unwrap(), vec![1, 2, 3]);
    assert_eq!(base64_urlsafe_decode("base64:AQID").unwrap(), vec![1, 2, 3]);
    assert_eq!(base64_urlsafe_decode("AQ==").unwrap(), vec![1]);
    assert_eq!(base64_urlsafe_decode("AQ").unwrap(), vec![1]);
    assert_eq!(base64_urlsafe_decode("AQI").unwrap(), vec![1, 2]);
    assert_eq!(base64_urlsafe_decode("A").unwrap(), Vec::<u8>::new());
    assert_eq!(base64_urlsafe_decode("").unwrap(), Vec::<u8>::new());
    assert_eq!(base64_urlsafe_decode("kgGhYQ==").unwrap(), vec![0x92, 0x01, 0xa1, 0x61]);
}

#[test]
fn base64_accepts_both_alphabets_and_skips_space() {
    assert_eq!(base64_urlsafe_decode("-_").unwrap(), vec![0xfb]);
    assert_eq!(base64_urlsafe_decode("+/").unwrap(), vec![0xfb]);
    assert_eq!(base64_urlsafe_decode("AQ I\r\n\tD").unwrap(), vec![1, 2, 3]);
    assert_eq!(base64_urlsafe_decode("zz09").unwrap(), vec![0xcf, 0x3d, 0x3d]);
}

#[test]
fn base64_rejects_other_characters() {
    assert_eq!(base64_urlsafe_decode("A!"), Err(KartError::InvalidBase64Character(b'!')));
    assert_eq!(base64_urlsafe_decode("AQ=D"), Err(KartError::InvalidBase64Character(b'=')));
    assert_eq!(base64_urlsafe_decode("base64"), Ok(vec![0x6d, 0xab, 0x1e, 0xeb]));
    assert_eq!(base64_urlsafe_decode("é"), Err(KartError::InvalidBase64Character(0xc3)));
}

#[test]
fn base64_into_buffer() {
    let mut buf = [0u8; 3];
    assert_eq!(base64_urlsafe_decode_slice("AQID", &mut buf).unwrap(), &[1, 2, 3]);
    let mut small = [9u8; 2];
    assert_eq!(base64_urlsafe_decode_slice("AQID", &mut small), Err(KartError::Base64BufferOverflow));
    assert_eq!(small, [1, 2]);
    let mut big = [9u8; 5];
    assert_eq!(base64_urlsafe_decode_slice("AQ", &mut big).unwrap(), &[1]);
    assert_eq!(big, [1, 9, 9, 9, 9]);
    let mut none = [0u8; 0];
    assert_eq!(base64_urlsafe_decode_slice("AQ!D", &mut none), Err(KartError::Base64BufferOverflow));
    let mut enough = [0u8; 5];
    assert_eq!(base64_urlsafe_decode_slice("AQ!D", &mut enough), Err(KartError::InvalidBase64Character(b'!')));
    assert_eq!(enough, [1, 0, 0, 0, 0]);
}

#[test]
fn base64_buffer_as_long_as_input_agrees_with_vector() {
    for input in ["AQID", "base64:kgGhYQ==", "A", "-_+/", "x y"] {
        let mut buf = vec![0u8; input.len()];
        let a = base64_urlsafe_decode_slice(input, &mut buf).map(|s| s.to_vec());
        assert_eq!(a, base64_urlsafe_decode(input));
    }
}

#[test]
fn pk_from_filename() {
    assert_eq!(
        decode_pk_from_filename("kgGhYQ==").unwrap(),
        vec![Value::Integer(1), Value::String("a")]
    );
    assert_eq!(decode_pk_from_filename("BQ==").unwrap(), vec![Value::Integer(5)]);
    assert_eq!(decode_pk_from_filename("wQ"), Err(KartError::Msgpack(DecodeError::UnsupportedTag(0xc1))));
    assert_eq!(decode_pk_from_filename("*"), Err(KartError::InvalidBase64Character(b'*')));
}

#[test]
fn pk_into_fixed_slots() {
    let mut bytes = [0u8; 16];
    let mut vals = [Value::Nil, Value::Nil, Value::Nil, Value::Bool(true)];
    assert_eq!(decode_pk_into("kgGhYQ==", &mut bytes, &mut vals).unwrap(), 2);
    assert_eq!(vals, [Value::Integer(1), Value::String("a"), Value::Nil, Value::Bool(true)]);

    let mut bytes = [0u8; 16];
    let mut vals = [Value::Nil, Value::Nil, Value::Nil, Value::Nil];
    assert_eq!(decode_pk_into("lQECAwQF", &mut bytes, &mut vals).unwrap(), 4);
    assert_eq!(vals, [Value::Integer(1), Value::Integer(2), Value::Integer(3), Value::Integer(4)]);

    let mut bytes = [0u8; 16];
    let mut vals = [Value::Nil, Value::Nil, Value::Nil, Value::Nil];
    assert_eq!(decode_pk_into("BQ", &mut bytes, &mut vals).unwrap(), 1);
    assert_eq!(vals[0], Value::Integer(5));

    let mut tiny = [0u8; 1];
    let mut vals = [Value::Nil, Value::Nil, Value::Nil, Value::Nil];
    assert_eq!(decode_pk_into("kgGhYQ==", &mut tiny, &mut vals), Err(KartError::Base64BufferOverflow));
}

#[test]
fn pk_into_agrees_with_pk_from_filename() {
    for name in ["lQECAwQF", "kgGhYQ==", "BQ", "wQ", "*"] {
        let mut bytes = vec![0u8; name.len()];
        let mut vals = [Value::Nil, Value::Nil, Value::Nil, Value::Nil];
        match (decode_pk_from_filename(name), decode_pk_into(name, &mut bytes, &mut vals)) {
            (Ok(all), Ok(n)) => {
                assert_eq!(n, all.len().min(4));
                assert_eq!(&vals[..n], &all[..n]);
            }
            (Err(a), Err(b)) => assert_eq!(a, b),
            _ => panic!("decoding {} disagrees", name),
        }
    }
}

#[test]
fn gpkg_envelopes() {
    let mut g = vec![b'G', b'P', 0, 0x01, 0, 0, 0x10, 0xe6];
    g.extend_from_slice(&[1, 2, 3]);
    assert_eq!(gpkg_to_wkb(&g), Some(&[1u8, 2, 3][..]));

    let mut e = vec![b'G', b'P', 0, 0x03, 0, 0, 0, 0];
    e.extend_from_slice(&[0u8; 32]);
    e.push(7);
    assert_eq!(gpkg_to_wkb(&e), Some(&[7u8][..]));

    let mut e4 = vec![b'G', b'P', 0, 0x09, 0, 0, 0, 0];
    e4.extend_from_slice(&[0u8; 64]);
    assert_eq!(gpkg_to_wkb(&e4), Some(&[][..]));
    e4.pop();
    assert_eq!(gpkg_to_wkb(&e4), None);

    let mut e2 = vec![b'G', b'P', 0, 0x05, 0, 0, 0, 0];
    e2.extend_from_slice(&[0u8; 48]);
    assert_eq!(gpkg_to_wkb(&e2), Some(&[][..]));

    assert_eq!(gpkg_to_wkb(&[b'G', b'P', 0, 0x0b, 0, 0, 0, 0, 9]), Some(&[9u8][..]));
    assert_eq!(gpkg_to_wkb(&[b'G', b'X', 0, 0, 0, 0, 0, 0]), None);
    assert_eq!(gpkg_to_wkb(&[b'G', b'P', 0, 0]), None);
}

#[test]
fn legend_parsing() {
    let l = Legend::parse(&[0x92, 0x91, 0xa1, b'a', 0x92, 0xa1, b'b', 0xa1, b'c']).unwrap();
    assert_eq!(l.pk_columns, vec!["a".to_string()]);
    assert_eq!(l.non_pk_columns, vec!["b".to_string(), "c".to_string()]);
    assert_eq!(Legend::parse(&[0x05]).unwrap_err(), KartError::LegendNotArray);
    assert_eq!(Legend::parse(&[0x91, 0x90]).unwrap_err(), KartError::LegendWrongLength(1));
    assert_eq!(Legend::parse(&[0x92, 0x05, 0x90]).unwrap_err(), KartError::LegendColumnsNotArray);
    assert_eq!(Legend::parse(&[0x92, 0x91, 0x05, 0x90]).unwrap_err(), KartError::LegendColumnNotString);
    assert_eq!(Legend::parse(&[]).unwrap_err(), KartError::Msgpack(DecodeError::UnexpectedEofU8));
}

#[test]
fn legend_compilation_finds_first_positions() {
    let schema = vec![col("a", "fid", "integer"), col("b", "x", "text"), col("c", "y", "text"), col("z", "w", "text")];
    let legend = Legend { pk_columns: vec!["a".into()], non_pk_columns: vec!["b".into(), "c".into(), "b".into()] };
    let c = compile_legend(&schema, &legend);
    assert_eq!(
        c.sources,
        vec![ColumnSource::Pk(0), ColumnSource::NonPk(0), ColumnSource::NonPk(1), ColumnSource::NotFound]
    );
    let both = Legend { pk_columns: vec!["b".into()], non_pk_columns: vec!["b".into()] };
    assert_eq!(compile_legend(&schema, &both).sources[1], ColumnSource::Pk(0));
}

fn legend_blob(pk: &str, non_pk: &str) -> Vec<u8> {
    vec![0x92, 0x91, 0xa1, pk.as_bytes()[0], 0x91, 0xa1, non_pk.as_bytes()[0]]
}

#[test]
fn dataset_keeps_legends_by_name() {
    let schema = vec![col("a", "fid", "integer"), col("b", "x", "text")];
    let d = Dataset::from_parts(
        "ds",
        schema.clone(),
        vec![("h1".into(), legend_blob("a", "b")), ("h2".into(), legend_blob("b", "a")), ("bad".into(), vec![0xc1])],
        vec![],
    );
    assert_eq!(d.name, "ds");
    assert!(d.covers_schema());
    assert!(d.single_legend.is_none());
    assert_eq!(d.legend("h1").unwrap().sources, vec![ColumnSource::Pk(0), ColumnSource::NonPk(0)]);
    assert_eq!(d.legend("h2").unwrap().sources, vec![ColumnSource::NonPk(0), ColumnSource::Pk(0)]);
    assert!(d.legend("bad").is_none());
    assert!(d.legend("none").is_none());

    let one = Dataset::from_parts(
        "ds",
        schema.clone(),
        vec![("h1".into(), legend_blob("a", "b")), ("bad".into(), vec![])],
        vec![],
    );
    assert_eq!(one.single_legend.unwrap().sources, vec![ColumnSource::Pk(0), ColumnSource::NonPk(0)]);

    let same = Dataset::from_parts(
        "ds",
        schema,
        vec![("h".into(), legend_blob("a", "b")), ("h".into(), legend_blob("b", "a"))],
        vec![],
    );
    assert_eq!(same.legends.len(), 1);
    assert!(same.covers_schema());
    let mut broken = same;
    broken.legends[0].1.sources.pop();
    assert!(!broken.covers_schema());
    assert_eq!(broken.single_legend.unwrap().sources, vec![ColumnSource::NonPk(0), ColumnSource::Pk(0)]);
}

#[test]
fn dataset_info_takes_first_geometry_column() {
    let mut g1 = col("g", "geom", "geometry");
    g1.geometry_crs = Some("EPSG:2193".into());
    g1.geometry_type = Some("POLYGON".into());
    let mut g2 = col("h", "geom2", "geometry");
    g2.geometry_crs = Some("EPSG:4326".into());
    let schema = vec![col("a", "fid", "integer"), g1, g2];
    let info = dataset_info("roads".to_string(), Some(&schema), 42);
    assert_eq!(info.name, "roads");
    assert_eq!(info.dataset_type, "table");
    assert_eq!(info.feature_count, 42);
    assert_eq!(info.geometry_crs.as_deref(), Some("EPSG:2193"));
    assert_eq!(info.geometry_type.as_deref(), Some("POLYGON"));
    let none = dataset_info("x".to_string(), None, 0);
    assert!(none.geometry_crs.is_none() && none.geometry_type.is_none());
    let plain = vec![col("a", "fid", "integer")];
    assert!(dataset_info("y".to_string(), Some(&plain), 1).geometry_crs.is_none());
}

#[test]
fn string_equality() {
    assert!(str_eq("abc", "abc"));
    assert!(!str_eq("abc", "abd"));
    assert!(!str_eq("ab", "abc"));
    assert!(str_eq("", ""));
}

fn encode_base64(bytes: &[u8], url_safe: bool, padded: bool) -> String {
    let alphabet: &[u8] = if url_safe {
        b"ABCDEFGHIJKLMNOPQRSTUVWXYZabcdefghijklmnopqrstuvwxyz0123456789-_"
    } else {
        b"ABCDEFGHIJKLMNOPQRSTUVWXYZabcdefghijklmnopqrstuvwxyz0123456789+/"
    };
    let mut out = String::new();
    for chunk in bytes.chunks(3) {
        let b = [chunk[0], *chunk.get(1).unwrap_or(&0), *chunk.get(2).unwrap_or(&0)];
        let n = ((b[0] as u32) << 16) | ((b[1] as u32) << 8) | b[2] as u32;
        for i in 0..(chunk.len() + 1) {
            out.push(alphabet[((n >> (18 - 6 * i)) & 63) as usize] as char);
        }
        if padded {
            for _ in chunk.len()..3 {
                out.push('=');
            }
        }
    }
    out
}

#[test]
fn base64_encodings_decode_back() {
    let mut x: u32 = 7;
    for len in 0..40usize {
        let bytes: Vec<u8> = (0..len)
            .map(|_| {
                x = x.wrapping_mul(1_103_515_245).wrapping_add(12_345);
                (x >> 16) as u8
            })
            .collect();
        for url_safe in [true, false] {
            for padded in [true, false] {
                let text = encode_base64(&bytes, url_safe, padded);
                assert_eq!(base64_urlsafe_decode(&text), Ok(bytes.clone()));
                assert_eq!(base64_urlsafe_decode(&format!("base64:{}", text)), Ok(bytes.clone()));
            }
        }
    }
}
