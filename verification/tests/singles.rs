use soliddb::single::{delete, get, put};
use soliddb::{Error, Single, Store};

#[derive(Debug, Clone, PartialEq)]
struct Config {
    some_field: String,
    some_other_field: u64,
    another_field: Vec<f32>,
}

fn put_field(out: &mut Vec<u8>, bytes: &[u8]) {
    out.extend_from_slice(&(bytes.len() as u32).to_be_bytes());
    out.extend_from_slice(bytes);
}

fn read_field(bytes: &[u8], pos: &mut usize) -> Option<Vec<u8>> {
    if bytes.len() < *pos + 4 {
        return None;
    }
    let len = u32::from_be_bytes([bytes[*pos], bytes[*pos + 1], bytes[*pos + 2], bytes[*pos + 3]])
        as usize;
    *pos += 4;
    if bytes.len() < *pos + len {
        return None;
    }
    let out = bytes[*pos..*pos + len].to_vec();
    *pos += len;
    Some(out)
}

impl Single for Config {
    fn single() -> u32 {
        1
    }

    fn to_bytes(&self) -> Result<Vec<u8>, Error> {
        let mut out = Vec::new();
        put_field(&mut out, self.some_field.as_bytes());
        put_field(&mut out, &self.some_other_field.to_be_bytes());
        let mut floats = Vec::new();
        for f in &self.another_field {
            floats.extend_from_slice(&f.to_be_bytes());
        }
        put_field(&mut out, &floats);
        Ok(out)
    }

    fn from_bytes(bytes: &[u8]) -> Result<Config, Error> {
        let mut pos: usize = 0;
        let some_field = read_field(bytes, &mut pos).ok_or(Error::Encoding)?;
        let other = read_field(bytes, &mut pos).ok_or(Error::Encoding)?;
        let floats = read_field(bytes, &mut pos).ok_or(Error::Encoding)?;
        if other.len() != 8 || floats.len() % 4 != 0 {
            return Err(Error::Encoding);
        }
        let mut another_field = Vec::new();
        for chunk in floats.chunks(4) {
            another_field.push(f32::from_be_bytes([chunk[0], chunk[1], chunk[2], chunk[3]]));
        }
        Ok(Config {
            some_field: String::from_utf8(some_field).map_err(|_| Error::Encoding)?,
            some_other_field: u64::from_be_bytes([
                other[0], other[1], other[2], other[3], other[4], other[5], other[6], other[7],
            ]),
            another_field,
        })
    }
}

#[test]
fn put_and_delete_single() {
    let mut db = Store::new();

    let config = Config {
        some_field: "pako".to_string(),
        some_other_field: 13,
        another_field: vec![],
    };

    put(&config, &mut db).unwrap();
    let got = get::<Config>(&db).unwrap();
    assert_eq!(got, config);

    delete::<Config>(&mut db).unwrap();
    get::<Config>(&db).unwrap_err();
}

#[test]
fn overwrite() {
    let mut db = Store::new();

    let config = Config {
        some_field: "pako".to_string(),
        some_other_field: 13,
        another_field: vec![],
    };
    put(&config, &mut db).unwrap();

    let new_config = Config {
        some_field: "pako1".to_string(),
        some_other_field: 42,
        another_field: vec![123.45],
    };
    put(&new_config, &mut db).unwrap();

    let got = get::<Config>(&db).unwrap();
    assert_eq!(got, new_config);
}

#[test]
fn missing_single_is_not_found() {
    let db = Store::new();
    let err = get::<Config>(&db).unwrap_err();
    assert!(matches!(err, Error::NotFound));
}

#[test]
fn delete_missing_single_succeeds() {
    let mut db = Store::new();
    delete::<Config>(&mut db).unwrap();
    let err = get::<Config>(&db).unwrap_err();
    assert!(matches!(err, Error::NotFound));
}
