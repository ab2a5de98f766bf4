use soliddb::table::{create, delete, get, update};
use soliddb::{Error, Store, Table};

#[derive(Debug, Clone, PartialEq, Eq)]
enum User {
    Created { name: String, pass: String },
    Disabled { name: String, pass: String },
}

fn put_field(out: &mut Vec<u8>, bytes: &[u8]) {
    out.extend_from_slice(&(bytes.len() as u32).to_be_bytes());
    out.extend_from_slice(bytes);
}

fn read_field(bytes: &[u8], pos: &mut usize) -> Option<Vec<u8>> {
    if bytes.len() < *pos + 4 {
        return None;
    }
    let len = u32::from_be_bytes([bytes[*pos], bytes[*pos + 1], bytes[*pos + 2], bytes[*pos + 3]])
        as usize;
    *pos += 4;
    if bytes.len() < *pos + len {
        return None;
    }
    let out = bytes[*pos..*pos + len].to_vec();
    *pos += len;
    Some(out)
}

impl Table for User {
    fn valid_schema() {}

    fn table() -> u32 {
        1
    }

    fn unique_slots() -> Vec<u8> {
        Vec::new()
    }

    fn non_unique_slots() -> Vec<u8> {
        Vec::new()
    }

    fn unique_value(&self, _slot: u8) -> Vec<u8> {
        Vec::new()
    }

    fn non_unique_value(&self, _slot: u8) -> Vec<u8> {
        Vec::new()
    }

    fn to_bytes(&self) -> Result<Vec<u8>, Error> {
        let (tag, name, pass) = match self {
            User::Created { name, pass } => (0u8, name, pass),
            User::Disabled { name, pass } => (1u8, name, pass),
        };
        let mut out = vec![tag];
        put_field(&mut out, name.as_bytes());
        put_field(&mut out, pass.as_bytes());
        Ok(out)
    }

    fn from_bytes(bytes: &[u8]) -> Result<User, Error> {
        if bytes.is_empty() {
            return Err(Error::Encoding);
        }
        let tag = bytes[0];
        let mut pos: usize = 1;
        let name = read_field(bytes, &mut pos).ok_or(Error::Encoding)?;
        let pass = read_field(bytes, &mut pos).ok_or(Error::Encoding)?;
        let name = String::from_utf8(name).map_err(|_| Error::Encoding)?;
        let pass = String::from_utf8(pass).map_err(|_| Error::Encoding)?;
        match tag {
            0 => Ok(User::Created { name, pass }),
            1 => Ok(User::Disabled { name, pass }),
            _ => Err(Error::Encoding),
        }
    }
}

#[test]
fn enums_simple() {
    let mut db = Store::new();

    let user = User::Created {
        name: "pako".to_string(),
        pass: "123".to_string(),
    };

    let id = create(&user, &mut db).unwrap();
    let with_id = get::<User>(&db, id).unwrap();
    assert_eq!(with_id.id, id);
    assert_eq!(with_id.value, user);

    let user = User::Disabled {
        name: "pako".to_string(),
        pass: "123".to_string(),
    };

    update(&user, &mut db, id).unwrap();
    let with_id = get::<User>(&db, id).unwrap();
    assert_eq!(with_id.id, id);
    assert_eq!(with_id.value, user);

    delete::<User>(&mut db, id).unwrap();
    get::<User>(&db, id).unwrap_err();
}
