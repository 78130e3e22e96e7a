use fuzzycrypt::keys;
use fuzzycrypt::keys::public::Public;
use fuzzycrypt::keys::secret::Secret;

#[test]
fn test_secret_pub() {
    let _ = keys::secret::Secret::new(4);
}

#[test]
fn test_public_pub() {
    let secret = keys::secret::Secret::new(64).unwrap();
    let _ = keys::public::Public::from(&secret);
}

#[test]
fn test_decryption() {
    let secret = Secret::new(16).unwrap();
    let public = secret.generate_public_key();

    let message = "Hello World".to_string();

    let encrypted = public.encrypt(&message);
    let decrypted = secret.decrypt(&encrypted).unwrap();

    assert_eq!(decrypted, message);
}

#[test]
fn test_decryption_utf8() {
    let secret = Secret::new(16).unwrap();
    let public = secret.generate_public_key();

    let message = "こんにちは世界".to_string();

    let encrypted = public.encrypt(&message);
    let decrypted = secret.decrypt(&encrypted).unwrap();

    assert_eq!(decrypted, message);
}

#[test]
fn secret_creation() {
    let secret = Secret::new(16).unwrap();
    assert_eq!(secret.key.len(), 16);

    let mod_range = 11120640..111206400;
    assert!(mod_range.contains(&secret.modulo));

    let key_range = -32768..32768;
    for num in secret.key.iter() {
        assert!(key_range.contains(num));
    }
}

#[test]
fn round_trip_many_fresh_keys() {
    let message = "Hello World!".to_string();
    for _ in 0..100 {
        let secret = Secret::new(8).unwrap();
        let public = secret.generate_public_key();
        let encrypted = public.encrypt(&message);
        assert_eq!(encrypted.len(), message.chars().count() * (8 + 1) * 4);
        let decrypted = secret.decrypt(&encrypted).unwrap();
        assert_eq!(decrypted, message);
    }
}

#[test]
fn empty_message() {
    let secret = Secret::new(16).unwrap();
    let public = secret.generate_public_key();

    let encrypted = public.encrypt(&String::new());
    assert_eq!(encrypted.len(), 0);

    let decrypted = secret.decrypt(&[]).unwrap();
    assert_eq!(decrypted, "");
}

#[test]
fn ciphertext_layout() {
    let secret = Secret::new(5).unwrap();
    let public = secret.generate_public_key();
    let encrypted = public.encrypt(&"abc".to_string());
    assert_eq!(encrypted.len(), 3 * (5 + 1) * 4);
}

#[test]
fn public_key_equation_invariant() {
    let secret = Secret::new(12).unwrap();
    let public: Public = secret.generate_public_key();

    let n = secret.key.len();
    let width = n + 1;
    let m = secret.modulo as i64;
    let bound = (secret.add / 10) as i64;
    assert_eq!(public.key.len(), 10 * n * width);

    for i in 0..10 * n {
        let row = &public.key[i * width..(i + 1) * width];
        let mut dot: i64 = 0;
        for j in 0..n {
            dot += (row[j] as i64) * (secret.key[j] as i64);
        }
        let expected = dot.rem_euclid(m);
        let target = row[n] as i64;
        let diff = (target - expected).rem_euclid(m);
        let dist = diff.min(m - diff);
        assert!(dist <= bound);
    }
}
