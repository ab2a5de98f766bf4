use soliddb::table::{all, create, get};
use soliddb::{Error, Store, Table};

// The codec of these fixtures writes named fields, so that newer
// shapes tolerate records written by older ones: unknown trailing
// fields default, and reading tries the declared shapes in order.

fn put_named(out: &mut Vec<u8>, name: &str, bytes: &[u8]) {
    out.extend_from_slice(&(name.len() as u32).to_be_bytes());
    out.extend_from_slice(name.as_bytes());
    out.extend_from_slice(&(bytes.len() as u32).to_be_bytes());
    out.extend_from_slice(bytes);
}

fn read_chunk(bytes: &[u8], pos: &mut usize) -> Option<Vec<u8>> {
    if bytes.len() < *pos + 4 {
        return None;
    }
    let len = u32::from_be_bytes([bytes[*pos], bytes[*pos + 1], bytes[*pos + 2], bytes[*pos + 3]])
        as usize;
    *pos += 4;
    if bytes.len() < *pos + len {
        return None;
    }
    let out = bytes[*pos..*pos + len].to_vec();
    *pos += len;
    Some(out)
}

fn read_named(bytes: &[u8], pos: &mut usize) -> Option<(String, Vec<u8>)> {
    let name = read_chunk(bytes, pos)?;
    let value = read_chunk(bytes, pos)?;
    Some((String::from_utf8(name).ok()?, value))
}

fn fields_of(bytes: &[u8]) -> Result<Vec<(String, Vec<u8>)>, Error> {
    let mut pos: usize = 0;
    let mut out = Vec::new();
    while pos < bytes.len() {
        let field = read_named(bytes, &mut pos).ok_or(Error::Encoding)?;
        out.push(field);
    }
    Ok(out)
}

fn text(fields: &[(String, Vec<u8>)], name: &str) -> Option<String> {
    for (n, v) in fields {
        if n == name {
            return String::from_utf8(v.clone()).ok();
        }
    }
    None
}

#[derive(Debug, Clone, PartialEq, Eq)]
struct UserV1 {
    name: String,
    pass: String,
}

#[derive(Debug, Clone, PartialEq, Eq)]
struct UserV2 {
    name: String,
    pass: String,
    extra: Option<String>,
    more: Vec<String>,
}

impl Table for UserV1 {
    fn valid_schema() {}

    fn table() -> u32 {
        1
    }

    fn unique_slots() -> Vec<u8> {
        vec![1]
    }

    fn non_unique_slots() -> Vec<u8> {
        Vec::new()
    }

    fn unique_value(&self, _slot: u8) -> Vec<u8> {
        self.name.as_bytes().to_vec()
    }

    fn non_unique_value(&self, _slot: u8) -> Vec<u8> {
        Vec::new()
    }

    fn to_bytes(&self) -> Result<Vec<u8>, Error> {
        let mut out = Vec::new();
        put_named(&mut out, "name", self.name.as_bytes());
        put_named(&mut out, "pass", self.pass.as_bytes());
        Ok(out)
    }

    fn from_bytes(bytes: &[u8]) -> Result<UserV1, Error> {
        let fields = fields_of(bytes)?;
        Ok(UserV1 {
            name: text(&fields, "name").ok_or(Error::Encoding)?,
            pass: text(&fields, "pass").ok_or(Error::Encoding)?,
        })
    }
}

impl Table for UserV2 {
    fn valid_schema() {}

    fn table() -> u32 {
        1
    }

    fn unique_slots() -> Vec<u8> {
        vec![1]
    }

    fn non_unique_slots() -> Vec<u8> {
        Vec::new()
    }

    fn unique_value(&self, _slot: u8) -> Vec<u8> {
        self.name.as_bytes().to_vec()
    }

    fn non_unique_value(&self, _slot: u8) -> Vec<u8> {
        Vec::new()
    }

    fn to_bytes(&self) -> Result<Vec<u8>, Error> {
        let mut out = Vec::new();
        put_named(&mut out, "name", self.name.as_bytes());
        put_named(&mut out, "pass", self.pass.as_bytes());
        if let Some(extra) = &self.extra {
            put_named(&mut out, "extra", extra.as_bytes());
        }
        let mut more = Vec::new();
        for item in &self.more {
            more.extend_from_slice(&(item.len() as u32).to_be_bytes());
            more.extend_from_slice(item.as_bytes());
        }
        put_named(&mut out, "more", &more);
        Ok(out)
    }

    fn from_bytes(bytes: &[u8]) -> Result<UserV2, Error> {
        let fields = fields_of(bytes)?;
        let mut more = Vec::new();
        for (n, v) in &fields {
            if n == "more" {
                let mut pos: usize = 0;
                while pos < v.len() {
                    let item = read_chunk(v, &mut pos).ok_or(Error::Encoding)?;
                    more.push(String::from_utf8(item).map_err(|_| Error::Encoding)?);
                }
            }
        }
        Ok(UserV2 {
            name: text(&fields, "name").ok_or(Error::Encoding)?,
            pass: text(&fields, "pass").ok_or(Error::Encoding)?,
            extra: text(&fields, "extra"),
            more,
        })
    }
}

#[test]
fn add_optional_field_and_more() {
    let mut db = Store::new();

    let user = UserV1 {
        name: "pako".to_string(),
        pass: "123".to_string(),
    };
    let id = create(&user, &mut db).unwrap();

    let got = get::<UserV2>(&db, id).unwrap();
    assert_eq!(got.value.name, user.name);
    assert_eq!(got.value.pass, user.pass);
    assert!(got.value.extra.is_none());
    assert!(got.value.more.is_empty());
}

#[derive(Debug, Clone, PartialEq, Eq)]
struct Type1 {
    name: String,
}

#[derive(Debug, Clone, PartialEq, Eq)]
struct Type2 {
    description: String,
}

#[derive(Debug, Clone, PartialEq, Eq)]
enum Migratable {
    V1(Type1),
    V2(Type2),
}

impl Table for Type1 {
    fn valid_schema() {}

    fn table() -> u32 {
        2
    }

    fn unique_slots() -> Vec<u8> {
        Vec::new()
    }

    fn non_unique_slots() -> Vec<u8> {
        Vec::new()
    }

    fn unique_value(&self, _slot: u8) -> Vec<u8> {
        Vec::new()
    }

    fn non_unique_value(&self, _slot: u8) -> Vec<u8> {
        Vec::new()
    }

    fn to_bytes(&self) -> Result<Vec<u8>, Error> {
        let mut out = Vec::new();
        put_named(&mut out, "name", self.name.as_bytes());
        Ok(out)
    }

    fn from_bytes(bytes: &[u8]) -> Result<Type1, Error> {
        let fields = fields_of(bytes)?;
        Ok(Type1 {
            name: text(&fields, "name").ok_or(Error::Encoding)?,
        })
    }
}

impl Table for Type2 {
    fn valid_schema() {}

    fn table() -> u32 {
        2
    }

    fn unique_slots() -> Vec<u8> {
        Vec::new()
    }

    fn non_unique_slots() -> Vec<u8> {
        Vec::new()
    }

    fn unique_value(&self, _slot: u8) -> Vec<u8> {
        Vec::new()
    }

    fn non_unique_value(&self, _slot: u8) -> Vec<u8> {
        Vec::new()
    }

    fn to_bytes(&self) -> Result<Vec<u8>, Error> {
        let mut out = Vec::new();
        put_named(&mut out, "description", self.description.as_bytes());
        Ok(out)
    }

    fn from_bytes(bytes: &[u8]) -> Result<Type2, Error> {
        let fields = fields_of(bytes)?;
        Ok(Type2 {
            description: text(&fields, "description").ok_or(Error::Encoding)?,
        })
    }
}

impl Table for Migratable {
    fn valid_schema() {}

    fn table() -> u32 {
        2
    }

    fn unique_slots() -> Vec<u8> {
        Vec::new()
    }

    fn non_unique_slots() -> Vec<u8> {
        Vec::new()
    }

    fn unique_value(&self, _slot: u8) -> Vec<u8> {
        Vec::new()
    }

    fn non_unique_value(&self, _slot: u8) -> Vec<u8> {
        Vec::new()
    }

    fn to_bytes(&self) -> Result<Vec<u8>, Error> {
        match self {
            Migratable::V1(t) => t.to_bytes(),
            Migratable::V2(t) => t.to_bytes(),
        }
    }

    fn from_bytes(bytes: &[u8]) -> Result<Migratable, Error> {
        if let Ok(t) = Type1::from_bytes(bytes) {
            return Ok(Migratable::V1(t));
        }
        Ok(Migratable::V2(Type2::from_bytes(bytes)?))
    }
}

fn pause() {
    let start = std::time::Instant::now();
    while start.elapsed() < std::time::Duration::from_millis(15) {}
}

#[test]
fn schema_change_with_version_enum() {
    let mut db = Store::new();

    let t1 = Type1 {
        name: "something".to_string(),
    };

    let t2 = Type2 {
        description: "name".to_string(),
    };

    let id1 = create(&t1, &mut db).unwrap();
    pause();
    let id2 = create(&t2, &mut db).unwrap();

    let all = all::<Migratable>(&db).unwrap();
    assert_eq!(all[0].id, id1);
    assert_eq!(all[0].value, Migratable::V1(t1));
    assert_eq!(all[1].id, id2);
    assert_eq!(all[1].value, Migratable::V2(t2));
}
