use mcf::legacy::BcryptHash;
use mcf::McfHash;

enum BcryptOrArgon {
    Argon(McfHash),
    Bcrypt(BcryptHash),
}

fn read_either(s: &str) -> BcryptOrArgon {
    match McfHash::from_str(s) {
        Ok(v) => BcryptOrArgon::Argon(v),
        Err(_) => BcryptOrArgon::Bcrypt(BcryptHash::from_str(s).unwrap()),
    }
}

#[test]
fn test_all() {
    let argon_hash = "$argon2i$m=262144,p=1,t=2$c29tZXNhbHQ\
                      $Pmiaqj0op3zyvHKlGsUxZnYXURgvHuKS4/Z3p9pMJGc";
    let bcrypt_hash = "$2a$10$ckjEeyTD6estWyoofn4EROM9Ik2PqVcfcrepX.uGp6.aqRdCMN/Oe";

    let argon = McfHash::from_str(argon_hash).unwrap();
    println!("{:?}", argon);
    assert_eq!(argon.to_string().unwrap(), argon_hash);
    let bcrypt = BcryptHash::from_str(bcrypt_hash).unwrap();
    println!("{:?}", bcrypt);
    let updated: McfHash = bcrypt.into();
    println!("{:?}", updated);
}

#[test]
fn test_trial_deserialize() {
    let argon_hash = "$argon2i$m=262144,p=1,t=2$c29tZXNhbHQ\
                      $Pmiaqj0op3zyvHKlGsUxZnYXURgvHuKS4/Z3p9pMJGc";
    let bcrypt_hash = "$2a$10$ckjEeyTD6estWyoofn4EROM9Ik2PqVcfcrepX.uGp6.aqRdCMN/Oe";

    let argon = read_either(argon_hash);
    assert!(if let BcryptOrArgon::Argon(_) = argon { true } else { false });

    let bcrypt = read_either(bcrypt_hash);
    assert!(if let BcryptOrArgon::Bcrypt(_) = bcrypt { true } else { false });
}

#[test]
fn argon_fields_are_read_in_order() {
    let argon_hash = "$argon2i$m=262144,p=1,t=2$c29tZXNhbHQ$Pmiaqj0op3zyvHKlGsUxZnYXURgvHuKS4/Z3p9pMJGc";
    let argon = McfHash::from_str(argon_hash).unwrap();
    assert_eq!(argon.algorithm, "argon2i");
    assert_eq!(
        argon.parameters,
        vec![
            ("m".to_string(), "262144".to_string()),
            ("p".to_string(), "1".to_string()),
            ("t".to_string(), "2".to_string()),
        ]
    );
    assert_eq!(argon.salt, b"somesalt".to_vec());
    assert_eq!(argon.hash.len(), 32);
}

#[test]
fn bcrypt_record_and_conversion() {
    let bcrypt_hash = "$2a$10$ckjEeyTD6estWyoofn4EROM9Ik2PqVcfcrepX.uGp6.aqRdCMN/Oe";
    let bcrypt = BcryptHash::from_str(bcrypt_hash).unwrap();
    assert_eq!(bcrypt.algorithm, "2a");
    assert_eq!(bcrypt.cost, 10);
    assert_eq!(bcrypt.salthash.0.len(), 16);
    assert_eq!(bcrypt.salthash.1.len(), 23);
    assert_eq!(bcrypt.to_string().unwrap(), bcrypt_hash);
    let salt = bcrypt.salthash.0.clone();
    let updated: McfHash = bcrypt.into();
    assert_eq!(updated.algorithm, "2a");
    assert_eq!(updated.parameters, vec![("cost".to_string(), "10".to_string())]);
    assert_eq!(updated.salt, salt);
    assert_eq!(updated.hash.len(), 23);
}
