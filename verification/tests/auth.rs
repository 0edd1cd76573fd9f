use twin_api::auth::{
    authenticate, expiration, generate_hash, issue_token, token_at, verify_hash, write_claims_json, write_user_json,
    MAX_TIMESTAMP,
};
use twin_api::models::{Claims, Environment, User, UserLogin};

const ID: u128 = 0x557c8018_5e21_4b74_8bb0_9040e2e8ead1;

fn user(password_hash: &str) -> User {
    User { email: "a@b.c".to_string(), id: ID, name: "A \"B\"".to_string(), password: password_hash.to_string() }
}

fn env() -> Environment {
    Environment {
        server_address: "127.0.0.1:8080".to_string(),
        db_address: "127.0.0.1:9042".to_string(),
        secret_key: "secret".to_string(),
        twin_instance: 1,
    }
}

fn claims_of(token: &str) -> serde_json::Value {
    let data = jsonwebtoken::decode::<serde_json::Value>(
        token,
        &jsonwebtoken::DecodingKey::from_secret(b"secret"),
        &jsonwebtoken::Validation::default(),
    )
    .unwrap();
    data.claims
}

#[test]
fn hashes_verify_their_password_only() {
    let h = generate_hash(&"pw".to_string()).unwrap();
    assert!(h.starts_with("$argon2i$v=19$m=4096,t=3,p=1$"));
    assert_eq!(h.len(), 29 + 43 + 1 + 43);
    assert_eq!(verify_hash(&"pw".to_string(), &h), Some(true));
    assert_eq!(verify_hash(&"other".to_string(), &h), Some(false));
    assert_eq!(verify_hash(&"pw".to_string(), &"not a hash".to_string()), None);
    let h2 = generate_hash(&"pw".to_string()).unwrap();
    assert_ne!(h, h2);
}

#[test]
fn users_are_written_as_json() {
    let u = user("h\\\n\u{1}");
    assert_eq!(
        write_user_json(&u),
        "{\"email\":\"a@b.c\",\"id\":\"557c8018-5e21-4b74-8bb0-9040e2e8ead1\",\"name\":\"A \\\"B\\\"\",\"password\":\"h\\\\\\n\\u0001\"}"
    );
    let parsed: serde_json::Value = serde_json::from_str(&write_user_json(&u)).unwrap();
    assert_eq!(parsed["name"], "A \"B\"");
    assert_eq!(parsed["password"], "h\\\n\u{1}");
    let c = Claims { sub: "x\t".to_string(), exp: 1234 };
    assert_eq!(write_claims_json(&c), "{\"sub\":\"x\\t\",\"exp\":1234}");
}

#[test]
fn tokens_last_an_hour_or_a_year() {
    assert_eq!(expiration(1_000, false), 4_600);
    assert_eq!(expiration(1_000, true), 1_000 + 365 * 86_400);
}

#[test]
fn issued_tokens_carry_the_claims() {
    let u = user("h");
    let now: i64 = 4_000_000_000;
    let t = issue_token(&u, now, false, &"secret".to_string());
    let claims = claims_of(&t);
    assert_eq!(claims["exp"], 4_000_003_600u64);
    assert_eq!(claims["sub"], write_user_json(&u).as_str());
}

#[test]
fn authentication_checks_the_password() {
    let h = generate_hash(&"pw".to_string()).unwrap();
    let login = UserLogin { email: "a@b.c".to_string(), password: "pw".to_string(), remember_me: false };
    let token = authenticate(login, user(&h), &env()).unwrap();
    let claims = claims_of(&token);
    let exp = claims["exp"].as_u64().unwrap() as i64;
    let now = chrono::Utc::now().timestamp();
    assert!(exp > now + 3_500 && exp <= now + 3_600);
    let wrong = UserLogin { email: "a@b.c".to_string(), password: "nope".to_string(), remember_me: true };
    assert_eq!(authenticate(wrong, user(&h), &env()), Err("Invalid password input".to_string()));
    let login = UserLogin { email: "a@b.c".to_string(), password: "pw".to_string(), remember_me: true };
    assert_eq!(authenticate(login, user("garbage"), &env()), Err("Stored password hash could not be read.".to_string()));
}

#[test]
fn remembered_logins_last_a_year() {
    let h = generate_hash(&"pw".to_string()).unwrap();
    let login = UserLogin { email: "a@b.c".to_string(), password: "pw".to_string(), remember_me: true };
    let token = authenticate(login, user(&h), &env()).unwrap();
    let exp = claims_of(&token)["exp"].as_i64().unwrap();
    let now = chrono::Utc::now().timestamp();
    assert!(exp > now + 365 * 86_400 - 100 && exp <= now + 365 * 86_400);
}

#[test]
fn tokens_at_a_time_last_from_that_time() {
    let u = user("h");
    let secret = "secret".to_string();
    let t = token_at(&u, 4_000_000_000, true, &secret).unwrap();
    assert_eq!(claims_of(&t)["exp"], 4_000_000_000u64 + 365 * 86_400);
    assert_eq!(t, issue_token(&u, 4_000_000_000, true, &secret));
    let late = MAX_TIMESTAMP - 3_599;
    assert_eq!(
        token_at(&u, late, false, &secret),
        Err("The token would expire after the last time the clock represents.".to_string())
    );
    assert!(token_at(&u, late - 1, false, &secret).is_ok());
    assert!(token_at(&u, late - 1, true, &secret).is_err());
}
