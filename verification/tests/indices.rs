use soliddb::table::{create, delete, get_by_non_unique_index, get_by_unique_index};
use soliddb::{Error, IndexValue, Store, Table};

#[derive(Debug, Clone, PartialEq, Eq)]
struct User {
    name: String,
    group: String,
}

const NAME_SLOT: u8 = 1;
const GROUP_SLOT: u8 = 128;

fn put_field(out: &mut Vec<u8>, bytes: &[u8]) {
    out.extend_from_slice(&(bytes.len() as u32).to_be_bytes());
    out.extend_from_slice(bytes);
}

fn read_field(bytes: &[u8], pos: &mut usize) -> Option<Vec<u8>> {
    if bytes.len() < *pos + 4 {
        return None;
    }
    let len = u32::from_be_bytes([bytes[*pos], bytes[*pos + 1], bytes[*pos + 2], bytes[*pos + 3]])
        as usize;
    *pos += 4;
    if bytes.len() < *pos + len {
        return None;
    }
    let out = bytes[*pos..*pos + len].to_vec();
    *pos += len;
    Some(out)
}

impl Table for User {
    fn valid_schema() {}

    fn table() -> u32 {
        1
    }

    fn unique_slots() -> Vec<u8> {
        vec![NAME_SLOT]
    }

    fn non_unique_slots() -> Vec<u8> {
        vec![GROUP_SLOT]
    }

    fn unique_value(&self, _slot: u8) -> Vec<u8> {
        self.name.as_bytes().to_vec()
    }

    fn non_unique_value(&self, _slot: u8) -> Vec<u8> {
        self.group.as_bytes().to_vec()
    }

    fn to_bytes(&self) -> Result<Vec<u8>, Error> {
        let mut out = Vec::new();
        put_field(&mut out, self.name.as_bytes());
        put_field(&mut out, self.group.as_bytes());
        Ok(out)
    }

    fn from_bytes(bytes: &[u8]) -> Result<User, Error> {
        let mut pos: usize = 0;
        let name = read_field(bytes, &mut pos).ok_or(Error::Encoding)?;
        let group = read_field(bytes, &mut pos).ok_or(Error::Encoding)?;
        Ok(User {
            name: String::from_utf8(name).map_err(|_| Error::Encoding)?,
            group: String::from_utf8(group).map_err(|_| Error::Encoding)?,
        })
    }
}

#[test]
fn unique_is_unique() {
    let mut db = Store::new();

    let user = User {
        name: "pako".to_string(),
        group: "users".to_string(),
    };
    create(&user, &mut db).unwrap();
    create(&user, &mut db).unwrap_err();
}

#[test]
fn get_by_indices() {
    let mut db = Store::new();

    for i in 0..10 {
        let user = User {
            name: format!("pako{i}"),
            group: "users".to_string(),
        };

        create(&user, &mut db).unwrap();
    }

    for i in 0..5 {
        let user = User {
            name: format!("simon{i}"),
            group: "admins".to_string(),
        };
        create(&user, &mut db).unwrap();
    }

    let users1 =
        get_by_non_unique_index::<User>(&db, GROUP_SLOT, "users".to_string().as_bytes()).unwrap();
    assert_eq!(users1.len(), 10);

    let users2 =
        get_by_non_unique_index::<User>(&db, GROUP_SLOT, "admins".to_string().as_bytes()).unwrap();
    assert_eq!(users2.len(), 5);
}

#[test]
fn duplicate_unique_leaves_first_retrievable() {
    let mut db = Store::new();

    let a = User {
        name: "pako".to_string(),
        group: "users".to_string(),
    };
    let b = User {
        name: "pako".to_string(),
        group: "admins".to_string(),
    };

    let id_a = create(&a, &mut db).unwrap();
    let err = create(&b, &mut db).unwrap_err();
    assert!(matches!(err, Error::AlreadyExists));

    let found = get_by_unique_index::<User>(&db, NAME_SLOT, "pako".as_bytes()).unwrap();
    assert_eq!(found.id, id_a);
    assert_eq!(found.value, a);
}

#[test]
fn delete_removes_index_entries() {
    let mut db = Store::new();

    let user = User {
        name: "pako".to_string(),
        group: "users".to_string(),
    };
    let id = create(&user, &mut db).unwrap();

    delete::<User>(&mut db, id).unwrap();

    let err = get_by_unique_index::<User>(&db, NAME_SLOT, "pako".as_bytes()).unwrap_err();
    assert!(matches!(err, Error::NotFound));
    let found = get_by_non_unique_index::<User>(&db, GROUP_SLOT, "users".as_bytes()).unwrap();
    assert!(found.is_empty());
}

#[test]
fn update_moves_only_changed_index_entries() {
    let mut db = Store::new();

    let user = User {
        name: "pako".to_string(),
        group: "users".to_string(),
    };
    let id = create(&user, &mut db).unwrap();

    let moved = User {
        name: "pako".to_string(),
        group: "admins".to_string(),
    };
    soliddb::table::update(&moved, &mut db, id).unwrap();

    let by_name = get_by_unique_index::<User>(&db, NAME_SLOT, "pako".as_bytes()).unwrap();
    assert_eq!(by_name.id, id);
    assert_eq!(by_name.value, moved);

    let users = get_by_non_unique_index::<User>(&db, GROUP_SLOT, "users".as_bytes()).unwrap();
    assert!(users.is_empty());
    let admins = get_by_non_unique_index::<User>(&db, GROUP_SLOT, "admins".as_bytes()).unwrap();
    assert_eq!(admins.len(), 1);
    assert_eq!(admins[0].id, id);
}

#[test]
fn index_value_encodings_are_exact() {
    assert_eq!(IndexValue::as_bytes(&"pako".to_string()), b"pako".to_vec());
    assert_eq!(IndexValue::as_bytes(&0x01020304u32), vec![1, 2, 3, 4]);
    assert_eq!(IndexValue::as_bytes(&(-1i32)), vec![0xff, 0xff, 0xff, 0xff]);
    assert_eq!(IndexValue::as_bytes(&0x0102u16), vec![1, 2]);
    assert_eq!(IndexValue::as_bytes(&258u64), vec![0, 0, 0, 0, 0, 0, 1, 2]);
    let items: Vec<u16> = vec![0x0102, 0x0304];
    assert_eq!(IndexValue::as_bytes(&items), vec![1, 2, 3, 4]);
}
