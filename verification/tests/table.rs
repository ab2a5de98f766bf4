use soliddb::table::{all, create, delete, get, iter, update};
use soliddb::{Error, Id, Store, Table};

#[derive(Debug, Clone, PartialEq, Eq)]
struct User {
    name: String,
    pass: String,
}

fn put_field(out: &mut Vec<u8>, bytes: &[u8]) {
    out.extend_from_slice(&(bytes.len() as u32).to_be_bytes());
    out.extend_from_slice(bytes);
}

fn read_field(bytes: &[u8], pos: &mut usize) -> Option<Vec<u8>> {
    if bytes.len() < *pos + 4 {
        return None;
    }
    let len = u32::from_be_bytes([bytes[*pos], bytes[*pos + 1], bytes[*pos + 2], bytes[*pos + 3]])
        as usize;
    *pos += 4;
    if bytes.len() < *pos + len {
        return None;
    }
    let out = bytes[*pos..*pos + len].to_vec();
    *pos += len;
    Some(out)
}

impl Table for User {
    fn valid_schema() {}

    fn table() -> u32 {
        1
    }

    fn unique_slots() -> Vec<u8> {
        Vec::new()
    }

    fn non_unique_slots() -> Vec<u8> {
        Vec::new()
    }

    fn unique_value(&self, _slot: u8) -> Vec<u8> {
        Vec::new()
    }

    fn non_unique_value(&self, _slot: u8) -> Vec<u8> {
        Vec::new()
    }

    fn to_bytes(&self) -> Result<Vec<u8>, Error> {
        let mut out = Vec::new();
        put_field(&mut out, self.name.as_bytes());
        put_field(&mut out, self.pass.as_bytes());
        Ok(out)
    }

    fn from_bytes(bytes: &[u8]) -> Result<User, Error> {
        let mut pos: usize = 0;
        let name = read_field(bytes, &mut pos).ok_or(Error::Encoding)?;
        let pass = read_field(bytes, &mut pos).ok_or(Error::Encoding)?;
        Ok(User {
            name: String::from_utf8(name).map_err(|_| Error::Encoding)?,
            pass: String::from_utf8(pass).map_err(|_| Error::Encoding)?,
        })
    }
}

fn pause() {
    let start = std::time::Instant::now();
    while start.elapsed() < std::time::Duration::from_millis(15) {}
}

#[test]
fn table_simple() {
    let mut db = Store::new();

    let user = User {
        name: "pako".to_string(),
        pass: "123".to_string(),
    };

    let id = create(&user, &mut db).unwrap();
    delete::<User>(&mut db, id).unwrap();
    let id = create(&user, &mut db).unwrap();

    let with_id = get::<User>(&db, id).unwrap();
    assert_eq!(with_id.value, user);
    assert_eq!(with_id.id, id);
}

#[test]
fn get_and_delete() {
    let mut db = Store::new();

    let user = User {
        name: "pako".to_string(),
        pass: "123".to_string(),
    };

    let id = create(&user, &mut db).unwrap();
    let with_id = get::<User>(&db, id).unwrap();
    assert_eq!(with_id.id, id);
    assert_eq!(with_id.value, user);

    delete::<User>(&mut db, id).unwrap();
    let err = get::<User>(&db, id).unwrap_err();
    assert!(matches!(err, Error::NotFound));
}

#[test]
fn update_existing_item() {
    let mut db = Store::new();

    let user = User {
        name: "pako".to_string(),
        pass: "123".to_string(),
    };
    let id = create(&user, &mut db).unwrap();

    let user = User {
        name: "pako1".to_string(),
        pass: "1234".to_string(),
    };
    update(&user, &mut db, id).unwrap();

    let with_id = get::<User>(&db, id).unwrap();
    assert_eq!(with_id.value, user);
}

#[test]
fn get_many() {
    let mut db = Store::new();

    let user1 = User {
        name: "pako".to_string(),
        pass: "123".to_string(),
    };

    let user2 = User {
        name: "simon".to_string(),
        pass: "123".to_string(),
    };

    let user3 = User {
        name: "niko".to_string(),
        pass: "123".to_string(),
    };

    let id1 = create(&user1, &mut db).unwrap();
    let id2 = create(&user2, &mut db).unwrap();
    let id3 = create(&user3, &mut db).unwrap();

    let users = soliddb::table::get_many::<User>(&db, &[id1, id2, id3]).unwrap();
    assert_eq!(users[0].value, user1);
    assert_eq!(users[1].value, user2);
    assert_eq!(users[2].value, user3);
}

#[test]
fn get_many_non_existing() {
    let mut db = Store::new();

    let user1 = User {
        name: "pako".to_string(),
        pass: "123".to_string(),
    };

    let user2 = User {
        name: "simon".to_string(),
        pass: "123".to_string(),
    };

    let user3 = User {
        name: "niko".to_string(),
        pass: "123".to_string(),
    };

    let id1 = create(&user1, &mut db).unwrap();
    let id2 = create(&user2, &mut db).unwrap();
    let id3 = create(&user3, &mut db).unwrap();

    let non_existent = Id(ulid::Ulid::generate().0);

    let err = soliddb::table::get_many::<User>(&db, &[id1, non_existent, id2, id3]).unwrap_err();
    assert!(matches!(err, Error::NotFound));
}

#[test]
fn iter_many() {
    let mut db = Store::new();

    let user1 = User {
        name: "pako".to_string(),
        pass: "123".to_string(),
    };

    let user2 = User {
        name: "simon".to_string(),
        pass: "123".to_string(),
    };

    let user3 = User {
        name: "niko".to_string(),
        pass: "123".to_string(),
    };

    let id1 = create(&user1, &mut db).unwrap();
    pause();
    let id2 = create(&user2, &mut db).unwrap();
    pause();
    let id3 = create(&user3, &mut db).unwrap();

    let mut users = iter::<User>(&db);

    let user = users.next().unwrap().unwrap();
    assert_eq!(user.id, id1);
    assert_eq!(user.value, user1);

    let user = users.next().unwrap().unwrap();
    assert_eq!(user.id, id2);
    assert_eq!(user.value, user2);

    let user = users.next().unwrap().unwrap();
    assert_eq!(user.id, id3);
    assert_eq!(user.value, user3);

    assert!(users.next().is_none());
}

#[test]
fn all_lists_every_record_in_id_order() {
    let mut db = Store::new();

    let user1 = User {
        name: "pako".to_string(),
        pass: "123".to_string(),
    };
    let user2 = User {
        name: "simon".to_string(),
        pass: "123".to_string(),
    };

    let id1 = create(&user1, &mut db).unwrap();
    pause();
    let id2 = create(&user2, &mut db).unwrap();

    let users = all::<User>(&db).unwrap();
    assert_eq!(users.len(), 2);
    assert_eq!(users[0].id, id1);
    assert_eq!(users[0].value, user1);
    assert_eq!(users[1].id, id2);
    assert_eq!(users[1].value, user2);
}
