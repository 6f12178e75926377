use matching_engine::hash::{hash_password, hash_then_verify, verify_password};
use matching_engine::ledger::Ledger;
use matching_engine::users::{login, recharge, register, LoginModel, RechargeModel, RegisterModel};

#[test]
fn test_hash() {
    assert!(verify_password("abcdefghijklmn", &hash_password("abcdefghijklmn")[..]).is_ok());
    assert!(verify_password("somethingthatisapassword", "IS_not_HEX_encoded_Thing").is_err());
    assert!(verify_password("goodbye", &hash_password("abcdefghijklmn")).is_err());
}

#[test]
fn hashes_are_uppercase_hex_of_a_32_byte_key() {
    let h = hash_password("password");
    assert_eq!(h.len(), 64);
    assert!(h.chars().all(|c| c.is_ascii_digit() || ('A'..='F').contains(&c)));
    assert_ne!(h, hash_password("Password"));
    assert_eq!(h, hash_password("password"));
    assert!(verify_password("password", &h.to_lowercase()).is_err());
    assert!(hash_then_verify("any password").is_ok());
    assert!(hash_then_verify("").is_ok());
}

#[test]
fn test_add_and_load_some_users() {
    let mut l = Ledger::new();
    for name in ["张三", "李四", "王五", "赵六", "冯舜"] {
        let id = register(&mut l, RegisterModel { name: name.to_owned(), password: "password".to_owned() }, 0)
            .unwrap();
        recharge(&mut l, id, RechargeModel { cash: 100 }).unwrap();
    }
    let n = l.user_count().min(5);
    println!("{} users:", n);
    for id in 0..n {
        println!("{} {}", id, l.user_name(id).unwrap());
        assert_eq!(l.balance(id), Some(100));
    }
    assert_eq!(n, 5);
}

#[test]
fn login_checks_name_and_password() {
    let mut l = Ledger::new();
    register(&mut l, RegisterModel { name: "ann".to_owned(), password: "secret".to_owned() }, 0).unwrap();
    let id = register(&mut l, RegisterModel { name: "bob".to_owned(), password: "hunter2".to_owned() }, 0).unwrap();
    let m = login(&l, LoginModel { name: "bob".to_owned(), password: "hunter2".to_owned() }).unwrap();
    assert_eq!(m.id, id);
    assert_eq!(m.name, "bob");
    assert!(login(&l, LoginModel { name: "bob".to_owned(), password: "secret".to_owned() }).is_err());
    assert!(login(&l, LoginModel { name: "eve".to_owned(), password: "hunter2".to_owned() }).is_err());
}
