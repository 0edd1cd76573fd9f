use rand::Rng;
use vstd::prelude::*;
use vstd::string::*;
use vstd::utf8::{encode_utf8, is_ascii_chars, is_ascii_chars_encode_utf8};
use crate::ids::{hex_number, hex_value, uuid_hyphenated, uuid_text};
use crate::models::{Claims, Environment, User, UserLogin};
use crate::text::{decimal, digit_char, hex_char, push_char, push_decimal, text};

verus! {

/// The number of characters of the salt a password hash is made with.
pub const SALT_LENGTH: usize = 32;

/// A letter of the English alphabet or a decimal digit.
pub open spec fn is_alphanumeric(c: char) -> bool {
    ('a' <= c && c <= 'z') || ('A' <= c && c <= 'Z') || ('0' <= c && c <= '9')
}

/// A random text of `n` letters and digits, drawn with `rand`'s
/// `Alphanumeric` distribution from the thread's generator.  Only its length
/// and alphabet are stated.
#[verifier::external_body]
fn random_alphanumeric(n: usize) -> (r: String)
    ensures
        r@.len() == n,
        forall|i: int| 0 <= i < n ==> is_alphanumeric(#[trigger] r@[i]),
{
    rand::thread_rng().sample_iter(&rand::distributions::Alphanumeric).take(n).collect::<String>()
}

/// What `argon2::hash_encoded` answers for a password and a salt (as UTF-8
/// bytes) with the default configuration of `rust-argon2`: the encoded
/// hash, or `None` where it fails.
pub uninterp spec fn argon2_encoded(password: Seq<char>, salt: Seq<char>) -> Option<Seq<char>>;

/// The start of every hash encoded with the default configuration of
/// `rust-argon2`: the variant (Argon2i), the version (19) and the costs
/// (4096 KiB of memory, 3 passes, 1 lane), before the salt and the hash in
/// base64.
pub open spec fn argon2_default_prefix() -> Seq<char> {
    "$argon2i$v=19$m=4096,t=3,p=1$"@
}

/// The sizes that hashing with the default configuration accepts: a salt
/// of 8 to `u32::MAX` bytes and a password of at most `u32::MAX` bytes, both
/// as UTF-8.
pub open spec fn argon2_inputs_fit(password: Seq<char>, salt: Seq<char>) -> bool {
    &&& 8 <= encode_utf8(salt).len() <= 0xFFFF_FFFF
    &&& encode_utf8(password).len() <= 0xFFFF_FFFF
}

/// Hashes a password with `argon2::hash_encoded` and the crate's default
/// configuration.  The hash is named, not restated.  Of it the contract
/// claims what the crate's source shows: hashing succeeds exactly when the
/// salt has 8 bytes or more and neither input exceeds `u32::MAX` bytes (the
/// checks of `Context::new` that the default configuration can fail); the
/// encoded text starts with
/// the default parameters; and `verify_encoded` reads it and accepts the
/// password it was made from.  The base64 rest of the text is not restated.
#[verifier::external_body]
fn argon2_hash(password: &str, salt: &str) -> (r: Option<String>)
    ensures
        match r {
            Some(h) => argon2_encoded(password@, salt@) == Some(h@),
            None => argon2_encoded(password@, salt@) is None,
        },
        (r is Some) == argon2_inputs_fit(password@, salt@),
        r matches Some(h) ==> h@.len() > argon2_default_prefix().len()
            && h@.take(argon2_default_prefix().len() as int) == argon2_default_prefix(),
        r matches Some(h) ==> argon2_verifies(h@, password@) == Some(true),
{
    match argon2::hash_encoded(password.as_bytes(), salt.as_bytes(), &argon2::Config::default()) {
        Ok(h) => Some(h),
        Err(_) => None,
    }
}

/// What `argon2::verify_encoded` answers for an encoded hash and a
/// password: whether the password matches, or `None` where the hash cannot
/// be read.
pub uninterp spec fn argon2_verifies(encoded: Seq<char>, password: Seq<char>) -> Option<bool>;

/// Checks a password against an encoded hash with `argon2::verify_encoded`.
#[verifier::external_body]
fn argon2_verify(encoded: &str, password: &str) -> (r: Option<bool>)
    ensures
        r == argon2_verifies(encoded@, password@),
{
    match argon2::verify_encoded(encoded, password.as_bytes()) {
        Ok(b) => Some(b),
        Err(_) => None,
    }
}

/// A new hash of the password, with a fresh random salt of 32 letters and
/// digits; `None` exactly for a password longer than `u32::MAX` bytes,
/// where hashing fails.  The hash starts with the default Argon2
/// parameters and verifies the password it was made from.
pub fn generate_hash(password: &String) -> (r: Option<String>)
    ensures
        r is Some <==> encode_utf8(password@).len() <= 0xFFFF_FFFF,
        r matches Some(h) ==> h@.len() > argon2_default_prefix().len()
            && h@.take(argon2_default_prefix().len() as int) == argon2_default_prefix(),
        r matches Some(h) ==> argon2_verifies(h@, password@) == Some(true),
        exists|salt: Seq<char>| {
            &&& salt.len() == SALT_LENGTH
            &&& forall|i: int| 0 <= i < salt.len() ==> is_alphanumeric(#[trigger] salt[i])
            &&& match r {
                Some(h) => argon2_encoded(password@, salt) == Some(h@),
                None => argon2_encoded(password@, salt) is None,
            }
        },
{
    let salt = random_alphanumeric(SALT_LENGTH);
    proof {
        assert(is_ascii_chars(salt@));
        is_ascii_chars_encode_utf8(salt@);
    }
    argon2_hash(password.as_str(), salt.as_str())
}

/// Whether the password matches the encoded hash; `None` where the hash
/// cannot be read.
pub fn verify_hash(password: &String, hash: &String) -> (r: Option<bool>)
    ensures
        r == argon2_verifies(hash@, password@),
{
    argon2_verify(hash.as_str(), password.as_str())
}

/// JSON's escape of one character inside a string, as `serde_json` writes it.
pub open spec fn json_escape(c: char) -> Seq<char> {
    if c == '"' {
        seq!['\\', '"']
    } else if c == '\\' {
        seq!['\\', '\\']
    } else if c == '\u{8}' {
        seq!['\\', 'b']
    } else if c == '\t' {
        seq!['\\', 't']
    } else if c == '\n' {
        seq!['\\', 'n']
    } else if c == '\u{c}' {
        seq!['\\', 'f']
    } else if c == '\r' {
        seq!['\\', 'r']
    } else if (c as int) < 0x20 {
        seq!['\\', 'u', '0', '0', hex_char((c as nat) / 16), hex_char((c as nat) % 16)]
    } else {
        seq![c]
    }
}

/// The character that one escape inside a JSON string stands for, by the
/// JSON grammar (RFC 8259): a character other than '"', '\\' and the
/// control characters stands for itself; a backslash and one of '"', '\\',
/// '/', 'b', 'f', 'n', 'r', 't' for the character it names; a backslash,
/// 'u' and four hexadecimal digits for the character of that code (outside
/// the surrogates).
pub open spec fn json_unescape(s: Seq<char>) -> Option<char> {
    if s.len() == 1 && s[0] != '"' && s[0] != '\\' && (s[0] as int) >= 0x20 {
        Some(s[0])
    } else if s.len() == 2 && s[0] == '\\' {
        if s[1] == '"' {
            Some('"')
        } else if s[1] == '\\' {
            Some('\\')
        } else if s[1] == '/' {
            Some('/')
        } else if s[1] == 'b' {
            Some('\u{8}')
        } else if s[1] == 'f' {
            Some('\u{c}')
        } else if s[1] == 'n' {
            Some('\n')
        } else if s[1] == 'r' {
            Some('\r')
        } else if s[1] == 't' {
            Some('\t')
        } else {
            None
        }
    } else if s.len() == 6 && s[0] == '\\' && s[1] == 'u' && (forall|k: int| 2 <= k < 6 ==> (#[trigger] hex_value(s[k])) is Some) {
        let v = hex_number(s.subrange(2, 6));
        if v < 0xD800 || (0xE000 <= v && v <= 0xFFFF) {
            Some(v as char)
        } else {
            None
        }
    } else {
        None
    }
}

/// Every character written inside a JSON string reads back as itself: a
/// reader of the JSON text gets the text that was written, whatever
/// characters it holds.
pub proof fn lemma_json_escape_reads_back(c: char)
    ensures
        json_unescape(json_escape(c)) == Some(c),
        (c as int) >= 0x20 && c != '"' && c != '\\' ==> json_escape(c) == seq![c],
{
    let e = json_escape(c);
    if (c as int) < 0x20 && c != '\u{8}' && c != '\t' && c != '\n' && c != '\u{c}' && c != '\r' {
        let hi = (c as nat) / 16;
        let lo = (c as nat) % 16;
        assert(hi == 0 || hi == 1);
        assert(hex_value(hex_char(hi)) == Some(hi));
        assert(hex_value(hex_char(lo)) == Some(lo));
        assert(hex_value('0') == Some(0nat));
        let d = e.subrange(2, 6);
        assert(d =~= seq!['0', '0', hex_char(hi), hex_char(lo)]);
        let d1 = d.drop_last().drop_last().drop_last();
        assert(d1 =~= seq!['0']);
        assert(d1.drop_last() =~= Seq::<char>::empty());
        assert(hex_number(d1.drop_last()) == 0);
        assert(d1.last() == '0');
        assert(hex_number(d1) == 0);
        assert(d.drop_last().drop_last() =~= seq!['0', '0']);
        assert(d.drop_last().drop_last().drop_last() == d1);
        assert(hex_number(d.drop_last().drop_last()) == 0);
        assert(hex_number(d.drop_last()) == hi);
        assert(hex_number(d) == hi * 16 + lo);
        assert(hex_number(d) == c as nat);
        assert(forall|k: int| 2 <= k < 6 ==> (#[trigger] hex_value(e[k])) is Some);
    }
}

/// A text written as a JSON string.
pub open spec fn json_text(s: Seq<char>) -> Seq<char> {
    seq!['"'] + json_body(s) + seq!['"']
}

/// The escaped characters of a JSON string.
pub open spec fn json_body(s: Seq<char>) -> Seq<char>
    decreases s.len(),
{
    if s.len() == 0 {
        Seq::empty()
    } else {
        json_body(s.drop_last()) + json_escape(s.last())
    }
}

/// The JSON text of a string is the escapes of its characters, one after
/// another: of a joined text it is the JSON of each part joined, and of one
/// character its escape, so every character is written and in order.
pub proof fn lemma_json_body_joins(s: Seq<char>, t: Seq<char>)
    ensures
        json_body(s + t) == json_body(s) + json_body(t),
        forall|c: char| #[trigger] json_body(seq![c]) == json_escape(c),
    decreases t.len(),
{
    assert forall|c: char| #[trigger] json_body(seq![c]) == json_escape(c) by {
        assert(seq![c].drop_last() =~= Seq::<char>::empty());
        assert(json_body(Seq::<char>::empty()) =~= Seq::<char>::empty());
        assert(json_body(seq![c]) =~= json_escape(c));
    }
    if t.len() == 0 {
        assert(s + t =~= s);
        assert(json_body(s) + json_body(t) =~= json_body(s));
    } else {
        lemma_json_body_joins(s, t.drop_last());
        assert((s + t).drop_last() =~= s + t.drop_last());
        assert((s + t).last() == t.last());
        assert(json_body(s + t) =~= json_body(s) + json_body(t));
    }
}

fn push_escaped(out: &mut String, c: char)
    ensures
        final(out)@ == old(out)@ + json_escape(c),
{
    let ghost start = out@;
    if c == '"' {
        push_char(out, '\\');
        push_char(out, '"');
    } else if c == '\\' {
        push_char(out, '\\');
        push_char(out, '\\');
    } else if c == '\u{8}' {
        push_char(out, '\\');
        push_char(out, 'b');
    } else if c == '\t' {
        push_char(out, '\\');
        push_char(out, 't');
    } else if c == '\n' {
        push_char(out, '\\');
        push_char(out, 'n');
    } else if c == '\u{c}' {
        push_char(out, '\\');
        push_char(out, 'f');
    } else if c == '\r' {
        push_char(out, '\\');
        push_char(out, 'r');
    } else if (c as u32) < 0x20 {
        let v = c as u32;
        push_char(out, '\\');
        push_char(out, 'u');
        push_char(out, '0');
        push_char(out, '0');
        push_char(out, digit_char((v / 16) as u8));
        push_char(out, digit_char((v % 16) as u8));
    } else {
        push_char(out, c);
    }
    proof {
        assert(out@ =~= start + json_escape(c));
    }
}

/// Appends a text written as a JSON string.
pub fn push_json_text(out: &mut String, s: &str)
    ensures
        final(out)@ == old(out)@ + json_text(s@),
{
    let ghost start = out@;
    push_char(out, '"');
    let n = s.unicode_len();
    for i in 0..n
        invariant
            n == s@.len(),
            out@ =~= start + seq!['"'] + json_body(s@.take(i as int)),
    {
        let c = s.get_char(i);
        proof {
            assert(s@.take(i + 1).drop_last() =~= s@.take(i as int));
        }
        push_escaped(out, c);
    }
    push_char(out, '"');
    proof {
        assert(s@.take(n as int) =~= s@);
    }
}

/// A user written as JSON, its fields in order, as `serde_json` writes it.
pub open spec fn user_json(u: User) -> Seq<char> {
    "{\"email\":"@ + json_text(u.email@) + ",\"id\":\""@ + uuid_hyphenated(u.id) + "\",\"name\":"@
        + json_text(u.name@) + ",\"password\":"@ + json_text(u.password@) + "}"@
}

/// The claims of a token written as JSON, as `serde_json` writes them.
pub open spec fn claims_json(c: Claims) -> Seq<char> {
    "{\"sub\":"@ + json_text(c.sub@) + ",\"exp\":"@ + decimal(c.exp as nat) + "}"@
}

/// A user written as JSON.
pub fn write_user_json(u: &User) -> (r: String)
    ensures
        r@ == user_json(*u),
{
    let mut r = text("{\"email\":");
    push_json_text(&mut r, u.email.as_str());
    r.append(",\"id\":\"");
    let idt = uuid_text(u.id);
    r.append(idt.as_str());
    r.append("\",\"name\":");
    push_json_text(&mut r, u.name.as_str());
    r.append(",\"password\":");
    push_json_text(&mut r, u.password.as_str());
    r.append("}");
    r
}

/// Claims written as JSON.
pub fn write_claims_json(c: &Claims) -> (r: String)
    ensures
        r@ == claims_json(*c),
{
    let mut r = text("{\"sub\":");
    push_json_text(&mut r, c.sub.as_str());
    r.append(",\"exp\":");
    push_decimal(&mut r, c.exp as u64);
    r.append("}");
    r
}

/// What `jsonwebtoken::encode` answers for claims given as JSON text and a
/// secret, with the default header (HS256): the token, or `None` where it
/// fails.
pub uninterp spec fn jwt_hs256(claims: Seq<char>, secret: Seq<char>) -> Option<Seq<char>>;

/// Signs claims, given as JSON text, into a token with
/// `jsonwebtoken::encode`, the default header and the secret's bytes as
/// HMAC key.  The claims are handed over verbatim as a `serde_json`
/// raw value.  The token is named, not restated.  For claims written as
/// `claims_json` a token is answered: such text is valid JSON, so
/// `RawValue::from_string` accepts it, the default header and the raw
/// value serialise, and HMAC-SHA256 signing cannot fail.
#[verifier::external_body]
fn jwt_encode(claims: &str, secret: &str) -> (r: Option<String>)
    ensures
        match r {
            Some(t) => jwt_hs256(claims@, secret@) == Some(t@),
            None => jwt_hs256(claims@, secret@) is None,
        },
        (exists|c: Claims| claims@ == #[trigger] claims_json(c)) ==> r is Some,
{
    let raw = match serde_json::value::RawValue::from_string(claims.to_string()) {
        Ok(v) => v,
        Err(_) => return None,
    };
    let key = jsonwebtoken::EncodingKey::from_secret(secret.as_bytes());
    match jsonwebtoken::encode(&jsonwebtoken::Header::default(), &raw, &key) {
        Ok(t) => Some(t),
        Err(_) => None,
    }
}

/// The last second that `chrono` can represent, in seconds since the epoch.
pub const MAX_TIMESTAMP: i64 = 8_210_266_876_799;

/// The current time from `chrono::Utc::now`, in seconds since the epoch.
/// `now` stops the program for a clock set before the epoch and answers
/// only times `chrono` represents; nothing else is stated.
#[verifier::external_body]
fn utc_now_timestamp() -> (r: i64)
    ensures
        0 <= r <= MAX_TIMESTAMP,
{
    chrono::Utc::now().timestamp()
}

/// How long a token lasts, in seconds: a year when the user asked to be
/// remembered, an hour otherwise.
pub open spec fn token_lifetime(remember_me: bool) -> int {
    if remember_me { 31_536_000int } else { 3600int }
}

/// When a token issued at `now` expires; the time must be one `chrono`
/// represents.
pub fn expiration(now: i64, remember_me: bool) -> (exp: usize)
    requires
        now + token_lifetime(remember_me) <= MAX_TIMESTAMP,
    ensures
        exp == (now + token_lifetime(remember_me)) as usize,
{
    let lifetime: i64 = if remember_me { 365 * 86400 } else { 3600 };
    let t: i64 = now + lifetime;
    t as usize
}

/// The claims, as JSON, of the token that a user gets at `now`.
pub open spec fn token_claims_json(user: User, now: int, remember_me: bool) -> Seq<char> {
    "{\"sub\":"@ + json_text(user_json(user)) + ",\"exp\":"@
        + decimal((now + token_lifetime(remember_me)) as usize as nat) + "}"@
}

/// The token, signed with the secret, that a user gets at `now`.
pub open spec fn token_for(user: User, now: int, remember_me: bool, secret: Seq<char>) -> Option<Seq<char>> {
    jwt_hs256(token_claims_json(user, now, remember_me), secret)
}

/// The claims of the token that a user gets at `now`: the user written as
/// JSON, and when the token expires.
pub fn token_claims(user: &User, now: i64, remember_me: bool) -> (c: Claims)
    requires
        now + token_lifetime(remember_me) <= MAX_TIMESTAMP,
    ensures
        c.sub@ == user_json(*user),
        c.exp == (now + token_lifetime(remember_me)) as usize,
{
    Claims { sub: write_user_json(user), exp: expiration(now, remember_me) }
}

/// The token a user gets at `now`, signed with the secret.
pub fn issue_token(user: &User, now: i64, remember_me: bool, secret: &String) -> (r: String)
    requires
        now + token_lifetime(remember_me) <= MAX_TIMESTAMP,
    ensures
        token_for(*user, now as int, remember_me, secret@) == Some(r@),
{
    let claims = token_claims(user, now, remember_me);
    let json = write_claims_json(&claims);
    match jwt_encode(json.as_str(), secret.as_str()) {
        Some(t) => t,
        None => {
            proof {
                assert(json@ == claims_json(claims));
                assert(false);
            }
            String::new()
        },
    }
}

/// The error answered when the token would expire after the last time
/// the clock represents.
pub open spec fn clock_range_message() -> Seq<char> {
    "The token would expire after the last time the clock represents."@
}

/// What a login whose password matched is answered at time `now`: the
/// token for the user that lasts from `now`, or the error of a time too late
/// for the clock.
pub open spec fn token_result(user: User, now: int, remember_me: bool, secret: Seq<char>) -> Result<Seq<char>, Seq<char>> {
    if now + token_lifetime(remember_me) > MAX_TIMESTAMP {
        Err(clock_range_message())
    } else {
        Ok(token_for(user, now, remember_me, secret).unwrap())
    }
}

/// A result of texts, by the views of its texts.
pub open spec fn text_result_view(r: Result<String, String>) -> Result<Seq<char>, Seq<char>> {
    match r {
        Ok(t) => Ok(t@),
        Err(e) => Err(e@),
    }
}

/// The token a user gets at `now`, signed with the secret, lasting an hour,
/// or a year when the user asked to be remembered; an error when the expiry
/// would be later than the clock represents.
pub fn token_at(user: &User, now: i64, remember_me: bool, secret: &String) -> (r: Result<String, String>)
    ensures
        text_result_view(r) == token_result(*user, now as int, remember_me, secret@),
        r matches Ok(t) ==> token_for(*user, now as int, remember_me, secret@) == Some(t@),
{
    let lifetime: i64 = if remember_me { 365 * 86400 } else { 3600 };
    if now > MAX_TIMESTAMP - lifetime {
        return Err(text("The token would expire after the last time the clock represents."));
    }
    Ok(issue_token(user, now, remember_me, secret))
}

/// Checks a login against a user and, when the password matches, answers
/// `token_at` for the current time: a token for the user that lasts an
/// hour, or a year when the user asked to be remembered, from that time.
/// A wrong password is refused with "Invalid password input"; a stored hash
/// that cannot be read is refused with a message of its own.
pub fn authenticate(login: UserLogin, user: User, env: &Environment) -> (r: Result<String, String>)
    ensures
        argon2_verifies(user.password@, login.password@) == Some(false) ==>
            (r matches Err(m) && m@ == "Invalid password input"@),
        argon2_verifies(user.password@, login.password@) is None ==>
            (r matches Err(m) && m@ == "Stored password hash could not be read."@),
        argon2_verifies(user.password@, login.password@) == Some(true) ==> exists|now: i64| {
            &&& 0 <= now <= MAX_TIMESTAMP
            &&& text_result_view(r) == #[trigger] token_result(user, now as int, login.remember_me, env.secret_key@)
        },
{
    match verify_hash(&login.password, &user.password) {
        None => Err(text("Stored password hash could not be read.")),
        Some(false) => Err(text("Invalid password input")),
        Some(true) => {
            let now = utc_now_timestamp();
            let r = token_at(&user, now, login.remember_me, &env.secret_key);
            proof {
                assert(text_result_view(r) == token_result(user, now as int, login.remember_me, env.secret_key@));
            }
            r
        },
    }
}

} // verus!
