//! Requests to the exchange's private REST API: the request signature, client order ids
//! and the body of an order.
use base64::Engine;
use hmac::Mac;
use sha2::Digest;
use vstd::prelude::*;
use vstd::utf8::encode_utf8;

verus! {

#[verifier::external_type_specification]
#[verifier::external_body]
pub struct ExDecodeError(base64::DecodeError);

/// The SHA-256 digest of a byte string.
pub uninterp spec fn sha256(data: Seq<u8>) -> Seq<u8>;

/// The HMAC-SHA-512 tag of a byte string under a key.
pub uninterp spec fn hmac_sha512(key: Seq<u8>, data: Seq<u8>) -> Seq<u8>;

/// The bytes that a text in the standard base64 alphabet (with padding) encodes, or `None`
/// when it is not such a text.
pub uninterp spec fn base64_decode(text: Seq<u8>) -> Option<Seq<u8>>;

/// The standard base64 text (with padding) of a byte string.
pub uninterp spec fn base64_encode(data: Seq<u8>) -> Seq<char>;

/// Hashes with `<sha2::Sha256 as Digest>::digest`. Claimed: the result is the named digest
/// of the input, 32 bytes long.
#[verifier::external_body]
fn sha256_digest(data: &[u8]) -> (r: Vec<u8>)
    ensures
        r@ == sha256(data@),
        r@.len() == 32,
{
    sha2::Sha256::digest(data).to_vec()
}

/// Computes an HMAC with `hmac::Hmac<sha2::Sha512>`: `new_from_slice` on the key (which
/// accepts a key of any length: longer keys are hashed, shorter ones padded), `update` with
/// the data, then `finalize`. Claimed: the result is the named tag, 64 bytes long.
#[verifier::external_body]
fn hmac_sha512_tag(key: &[u8], data: &[u8]) -> (r: Vec<u8>)
    ensures
        r@ == hmac_sha512(key@, data@),
        r@.len() == 64,
{
    let mut mac = hmac::Hmac::<sha2::Sha512>::new_from_slice(key).unwrap();
    mac.update(data);
    mac.finalize().into_bytes().to_vec()
}

/// Decodes with `base64::engine::general_purpose::STANDARD.decode`. Claimed: it succeeds
/// exactly when the named decoding exists, and then returns it.
#[verifier::external_body]
fn decode_base64(text: &[u8]) -> (r: Result<Vec<u8>, base64::DecodeError>)
    ensures
        r is Ok <==> base64_decode(text@) is Some,
        r matches Ok(bytes) ==> base64_decode(text@) == Some(bytes@),
{
    base64::engine::general_purpose::STANDARD.decode(text)
}

/// Encodes with `base64::engine::general_purpose::STANDARD.encode`, which panics when the
/// length of the text would overflow `usize`; `requires` leaves those inputs out. Claimed:
/// the result is the named encoding; it has four characters for every three bytes begun
/// (`encoded_len` with padding), ending in `==` after a last group of one byte and in `=`
/// after a last group of two (`add_padding`); and, as the alphabet is ASCII and the padding
/// canonical, `STANDARD.decode` gives the bytes back.
#[verifier::external_body]
fn encode_base64(data: &[u8]) -> (r: String)
    requires
        data@.len() / 3 * 4 + 4 <= usize::MAX,
    ensures
        r@ == base64_encode(data@),
        r@.len() == 4 * ((data@.len() + 2) / 3),
        data@.len() % 3 == 1 ==> r@[r@.len() - 2] == '=' && r@[r@.len() - 1] == '=',
        data@.len() % 3 == 2 ==> r@[r@.len() - 1] == '=',
        base64_decode(encode_utf8(r@)) == Some(data@),
{
    base64::engine::general_purpose::STANDARD.encode(data)
}

/// `a` followed by `b`.
fn concat_bytes(a: &[u8], b: &[u8]) -> (r: Vec<u8>)
    ensures
        r@ == a@ + b@,
{
    let mut r: Vec<u8> = Vec::new();
    let mut i: usize = 0;
    while i < a.len()
        invariant
            0 <= i <= a@.len(),
            r@ == a@.take(i as int),
        decreases a@.len() - i,
    {
        r.push(a[i]);
        i = i + 1;
        assert(r@ =~= a@.take(i as int));
    }
    let mut j: usize = 0;
    while j < b.len()
        invariant
            0 <= j <= b@.len(),
            a@.len() == i,
            r@ == a@ + b@.take(j as int),
        decreases b@.len() - j,
    {
        r.push(b[j]);
        j = j + 1;
        assert(r@ =~= a@ + b@.take(j as int));
    }
    assert(a@.take(a@.len() as int) =~= a@);
    assert(b@.take(b@.len() as int) =~= b@);
    r
}

/// The signature of a private request: the base64 text of the HMAC-SHA-512 tag, under the
/// decoded secret, of the URI path followed by the SHA-256 digest of the nonce followed by
/// the POST data.
pub open spec fn kraken_signature(path: Seq<u8>, nonce: Seq<u8>, post_data: Seq<u8>, secret: Seq<u8>) -> Seq<char> {
    base64_encode(hmac_sha512(secret, path + sha256(nonce + post_data)))
}

/// Signs a private request. The secret must be base64 text (`kraken_sign_checked` tests it).
pub fn kraken_sign(api_path: &str, nonce: &str, post_data: &str, api_secret: &str) -> (r: String)
    requires
        base64_decode(encode_utf8(api_secret@)) is Some,
    ensures
        r@ == kraken_signature(
            encode_utf8(api_path@),
            encode_utf8(nonce@),
            encode_utf8(post_data@),
            base64_decode(encode_utf8(api_secret@))->0,
        ),
        r@.len() == 88,
        r@[86] == '=' && r@[87] == '=',
        base64_decode(encode_utf8(r@)) matches Some(tag) && tag.len() == 64,
{
    let hashed = concat_bytes(nonce.as_bytes(), post_data.as_bytes());
    let hash = sha256_digest(hashed.as_slice());
    let data = concat_bytes(api_path.as_bytes(), hash.as_slice());
    let secret = match decode_base64(api_secret.as_bytes()) {
        Ok(bytes) => bytes,
        Err(_) => Vec::new(),
    };
    let tag = hmac_sha512_tag(secret.as_slice(), data.as_slice());
    encode_base64(tag.as_slice())
}

/// Signs a private request; `None` when the secret is not base64 text.
pub fn kraken_sign_checked(api_path: &str, nonce: &str, post_data: &str, api_secret: &str) -> (r:
    Option<String>)
    ensures
        r is Some <==> base64_decode(encode_utf8(api_secret@)) is Some,
        r matches Some(s) ==> s@ == kraken_signature(
            encode_utf8(api_path@),
            encode_utf8(nonce@),
            encode_utf8(post_data@),
            base64_decode(encode_utf8(api_secret@))->0,
        ),
        r matches Some(s) ==> s@.len() == 88 && s@[86] == '=' && s@[87] == '=',
        r matches Some(s) ==> (base64_decode(encode_utf8(s@)) matches Some(tag) && tag.len() == 64),
{
    match decode_base64(api_secret.as_bytes()) {
        Ok(_) => Some(kraken_sign(api_path, nonce, post_data, api_secret)),
        Err(_) => None,
    }
}

/// The path of the order-placing endpoint, which the signature covers.
pub const ADD_ORDER_PATH: &'static str = "/0/private/AddOrder";

/// The URL of the order-placing endpoint.
pub const ADD_ORDER_URL: &'static str = "https://demo-futures.kraken.com/0/private/AddOrder";

/// The character of a decimal digit.
pub open spec fn digit_char(d: nat) -> char {
    if d == 0 {
        '0'
    } else if d == 1 {
        '1'
    } else if d == 2 {
        '2'
    } else if d == 3 {
        '3'
    } else if d == 4 {
        '4'
    } else if d == 5 {
        '5'
    } else if d == 6 {
        '6'
    } else if d == 7 {
        '7'
    } else if d == 8 {
        '8'
    } else {
        '9'
    }
}

/// The decimal digits of a number, most significant first, without leading zeros.
pub open spec fn decimal_digits(n: nat) -> Seq<char>
    decreases n,
{
    if n < 10 {
        seq![digit_char(n)]
    } else {
        decimal_digits(n / 10).push(digit_char(n % 10))
    }
}

/// The decimal digits of a number, left-padded with zeros to at least `width` characters
/// (what `format!("{:0width$}", n)` prints).
pub open spec fn zero_padded(n: nat, width: nat) -> Seq<char> {
    let digits = decimal_digits(n);
    if digits.len() < width {
        Seq::new((width - digits.len()) as nat, |i: int| '0') + digits
    } else {
        digits
    }
}

/// The value of a decimal digit character (`'0'` to `'9'`).
pub open spec fn digit_value(c: char) -> nat {
    if c == '1' {
        1
    } else if c == '2' {
        2
    } else if c == '3' {
        3
    } else if c == '4' {
        4
    } else if c == '5' {
        5
    } else if c == '6' {
        6
    } else if c == '7' {
        7
    } else if c == '8' {
        8
    } else if c == '9' {
        9
    } else {
        0
    }
}

/// The number that a string of decimal digits denotes, most significant first.
pub open spec fn digits_value(s: Seq<char>) -> nat
    decreases s.len(),
{
    if s.len() == 0 {
        0
    } else {
        digits_value(s.drop_last()) * 10 + digit_value(s.last())
    }
}

/// A character is a decimal digit.
pub open spec fn is_digit(c: char) -> bool {
    '0' <= c <= '9'
}

proof fn lemma_digit_char_value(d: nat)
    requires
        d < 10,
    ensures
        digit_value(digit_char(d)) == d,
        is_digit(digit_char(d)),
{
}

proof fn lemma_decimal_digits_read_back(n: nat)
    ensures
        digits_value(decimal_digits(n)) == n,
        forall|i: int| 0 <= i < decimal_digits(n).len() ==> is_digit(#[trigger] decimal_digits(n)[i]),
    decreases n,
{
    if n < 10 {
        lemma_digit_char_value(n);
        let one = seq![digit_char(n)];
        assert(one.drop_last() =~= Seq::<char>::empty());
        assert(digits_value(one.drop_last()) == 0);
        assert(one.last() == digit_char(n));
        assert(decimal_digits(n) == one);
    } else {
        lemma_digit_char_value(n % 10);
        lemma_decimal_digits_read_back(n / 10);
        let prev = decimal_digits(n / 10);
        let all = prev.push(digit_char(n % 10));
        assert(all.drop_last() =~= prev);
        assert(all.last() == digit_char(n % 10));
        assert(decimal_digits(n) == all);
        assert(digits_value(all) == digits_value(prev) * 10 + digit_value(digit_char(n % 10)));
        assert(n == (n / 10) * 10 + n % 10);
    }
}

proof fn lemma_leading_zeros_read_back(zeros: nat, s: Seq<char>)
    ensures
        digits_value(Seq::new(zeros, |i: int| '0') + s) == digits_value(s),
    decreases s.len(), zeros,
{
    let z = Seq::new(zeros, |i: int| '0');
    if s.len() > 0 {
        lemma_leading_zeros_read_back(zeros, s.drop_last());
        assert((z + s).drop_last() =~= z + s.drop_last());
    } else if zeros > 0 {
        lemma_leading_zeros_read_back((zeros - 1) as nat, s);
        assert((z + s).drop_last() =~= Seq::new((zeros - 1) as nat, |i: int| '0') + s);
    } else {
        assert(z + s =~= s);
    }
}

/// The zero-padded text of a number has at least `width` characters, all decimal digits, and
/// reads back as the number.
pub proof fn lemma_zero_padded_reads_back(n: nat, width: nat)
    ensures
        digits_value(zero_padded(n, width)) == n,
        zero_padded(n, width).len() >= width,
        forall|i: int| 0 <= i < zero_padded(n, width).len() ==> is_digit(#[trigger] zero_padded(n, width)[i]),
{
    lemma_decimal_digits_read_back(n);
    let digits = decimal_digits(n);
    if digits.len() < width {
        let zeros = (width - digits.len()) as nat;
        lemma_leading_zeros_read_back(zeros, digits);
        assert forall|i: int| 0 <= i < zero_padded(n, width).len() implies is_digit(
            #[trigger] zero_padded(n, width)[i],
        ) by {
            if i >= zeros {
                assert(zero_padded(n, width)[i] == digits[i - zeros]);
            }
        }
    }
}

/// The decimal digits of a number are canonical: no leading zero (but for 0 itself), and `k`
/// of them exactly when `10^(k-1) <= n < 10^k` (one digit for 0).
pub proof fn lemma_decimal_digits_canonical(n: nat)
    ensures
        decimal_digits(n).len() >= 1,
        n > 0 ==> decimal_digits(n)[0] != '0',
        n < crate::decimal::pow10(decimal_digits(n).len()),
        n > 0 ==> crate::decimal::pow10((decimal_digits(n).len() - 1) as nat) <= n,
    decreases n,
{
    reveal_with_fuel(crate::decimal::pow10, 2);
    if n >= 10 {
        lemma_decimal_digits_canonical(n / 10);
        let prev = decimal_digits(n / 10);
        let k = prev.len();
        assert(decimal_digits(n) == prev.push(digit_char(n % 10)));
        assert(decimal_digits(n)[0] == prev[0]);
        assert(crate::decimal::pow10(k + 1) == 10 * crate::decimal::pow10(k));
        assert(n < crate::decimal::pow10(k + 1)) by (nonlinear_arith)
            requires
                n / 10 < crate::decimal::pow10(k),
                crate::decimal::pow10(k + 1) == 10 * crate::decimal::pow10(k),
                n >= 10,
        {
            assert(n == 10 * (n / 10) + n % 10);
        }
        if k >= 1 {
            assert(crate::decimal::pow10(k) == 10 * crate::decimal::pow10((k - 1) as nat));
        }
        assert(crate::decimal::pow10(k) <= n) by (nonlinear_arith)
            requires
                crate::decimal::pow10((k - 1) as nat) <= n / 10,
                crate::decimal::pow10(k) == 10 * crate::decimal::pow10((k - 1) as nat),
                n >= 10,
        {
            assert(n == 10 * (n / 10) + n % 10);
        }
    }
}

/// The zero-padded text of a number is exactly as long as the wider of the width and the
/// number's digits: zeros fill the difference and nothing more.
pub proof fn lemma_zero_padded_length(n: nat, width: nat)
    ensures
        zero_padded(n, width).len() == if decimal_digits(n).len() < width {
            width
        } else {
            decimal_digits(n).len()
        },
        forall|i: int|
            0 <= i < zero_padded(n, width).len() - decimal_digits(n).len() ==> #[trigger] zero_padded(
                n,
                width,
            )[i] == '0',
{
}

/// A client order id: `bot_`, the date, `_` and the sequence number padded to five digits.
pub open spec fn client_order_id_text(date: Seq<char>, seq: nat) -> Seq<char> {
    "bot_"@ + date + "_"@ + zero_padded(seq, 5)
}

/// The one-character text of a decimal digit.
fn digit_text(d: u64) -> (r: &'static str)
    requires
        d < 10,
    ensures
        r@ == seq![digit_char(d as nat)],
{
    proof {
        reveal_strlit("0");
        reveal_strlit("1");
        reveal_strlit("2");
        reveal_strlit("3");
        reveal_strlit("4");
        reveal_strlit("5");
        reveal_strlit("6");
        reveal_strlit("7");
        reveal_strlit("8");
        reveal_strlit("9");
    }
    if d == 0 {
        "0"
    } else if d == 1 {
        "1"
    } else if d == 2 {
        "2"
    } else if d == 3 {
        "3"
    } else if d == 4 {
        "4"
    } else if d == 5 {
        "5"
    } else if d == 6 {
        "6"
    } else if d == 7 {
        "7"
    } else if d == 8 {
        "8"
    } else {
        "9"
    }
}

proof fn lemma_decimal_digits_len(n: nat, k: nat)
    requires
        k >= 1,
        n < crate::decimal::pow10(k),
    ensures
        decimal_digits(n).len() <= k,
    decreases n,
{
    if n >= 10 {
        assert(k >= 2) by {
            if k == 1 {
                reveal_with_fuel(crate::decimal::pow10, 2);
            }
        }
        assert(n / 10 < crate::decimal::pow10((k - 1) as nat)) by {
            assert(crate::decimal::pow10(k) == 10 * crate::decimal::pow10((k - 1) as nat));
        }
        lemma_decimal_digits_len(n / 10, (k - 1) as nat);
    }
}

/// The decimal digits of a number and how many there are.
fn decimal_text(n: u64) -> (r: (String, usize))
    ensures
        r.0@ == decimal_digits(n as nat),
        r.1 == decimal_digits(n as nat).len(),
    decreases n,
{
    proof {
        crate::decimal::lemma_pow10_28();
        crate::decimal::lemma_pow10_monotone(20, 28);
        assert(crate::decimal::pow10(20) == 100000000000000000000) by {
            reveal_with_fuel(crate::decimal::pow10, 21);
        }
        lemma_decimal_digits_len(n as nat, 20);
    }
    if n < 10 {
        (digit_text(n).to_owned(), 1)
    } else {
        let (mut s, len) = decimal_text(n / 10);
        s.append(digit_text(n % 10));
        (s, len + 1)
    }
}

/// A client order id for a date and a sequence number; see `client_order_id_text`.
pub fn client_order_id(date: &str, seq: u64) -> (r: String)
    ensures
        r@ == client_order_id_text(date@, seq as nat),
{
    let (digits, len) = decimal_text(seq);
    let mut r = "bot_".to_owned();
    r.append(date);
    r.append("_");
    let mut k: usize = len;
    let ghost pad_start = r@;
    while k < 5
        invariant
            len <= k <= 5 || (len > 5 && k == len),
            len == decimal_digits(seq as nat).len(),
            r@ == pad_start + Seq::new((k - len) as nat, |i: int| '0'),
        decreases 5 - k,
    {
        proof {
            reveal_strlit("0");
        }
        r.append("0");
        k = k + 1;
        assert(r@ =~= pad_start + Seq::new((k - len) as nat, |i: int| '0'));
    }
    r.append(digits.as_str());
    assert(r@ =~= client_order_id_text(date@, seq as nat));
    r
}

/// The POST data of a limit order.
pub open spec fn add_order_body(
    nonce: Seq<char>,
    pair: Seq<char>,
    ordertype: Seq<char>,
    price: Seq<char>,
    volume: Seq<char>,
    cl_ord_id: Seq<char>,
) -> Seq<char> {
    "nonce="@ + nonce + "&pair="@ + pair + "&type="@ + ordertype + "&ordertype=limit&price="@
        + price + "&volume="@ + volume + "&cl_ord_id="@ + cl_ord_id
}

/// The form fields of a limit order, in the order the POST data lists them.
pub open spec fn add_order_fields(
    nonce: Seq<char>,
    pair: Seq<char>,
    ordertype: Seq<char>,
    price: Seq<char>,
    volume: Seq<char>,
    cl_ord_id: Seq<char>,
) -> Seq<(Seq<char>, Seq<char>)> {
    seq![
        ("nonce"@, nonce),
        ("pair"@, pair),
        ("type"@, ordertype),
        ("ordertype"@, "limit"@),
        ("price"@, price),
        ("volume"@, volume),
        ("cl_ord_id"@, cl_ord_id),
    ]
}

/// The texts of a list of form fields.
pub open spec fn field_texts(fields: Seq<(String, String)>) -> Seq<(Seq<char>, Seq<char>)> {
    fields.map_values(|f: (String, String)| (f.0@, f.1@))
}

/// A signed limit order, ready to be sent to `ADD_ORDER_URL`.
pub struct AddOrderRequest {
    /// The form fields.
    pub fields: Vec<(String, String)>,
    /// The POST data that the signature covers.
    pub post_data: String,
    /// The value of the `API-Sign` header.
    pub api_sign: String,
}

/// A form field.
fn field(name: &str, value: &str) -> (r: (String, String))
    ensures
        r.0@ == name@,
        r.1@ == value@,
{
    (name.to_owned(), value.to_owned())
}

/// Builds and signs a limit order; `None` when the secret is not base64 text.
pub fn add_order_request(
    nonce: &str,
    pair: &str,
    ordertype: &str,
    price: &str,
    volume: &str,
    cl_ord_id: &str,
    api_secret: &str,
) -> (r: Option<AddOrderRequest>)
    ensures
        r is Some <==> base64_decode(encode_utf8(api_secret@)) is Some,
        r matches Some(q) ==> {
            &&& q.post_data@ == add_order_body(nonce@, pair@, ordertype@, price@, volume@, cl_ord_id@)
            &&& field_texts(q.fields@) == add_order_fields(
                nonce@,
                pair@,
                ordertype@,
                price@,
                volume@,
                cl_ord_id@,
            )
            &&& q.api_sign@ == kraken_signature(
                encode_utf8(ADD_ORDER_PATH@),
                encode_utf8(nonce@),
                encode_utf8(q.post_data@),
                base64_decode(encode_utf8(api_secret@))->0,
            )
            &&& q.api_sign@.len() == 88
            &&& q.api_sign@[86] == '=' && q.api_sign@[87] == '='
            &&& base64_decode(encode_utf8(q.api_sign@)) matches Some(tag) && tag.len() == 64
        },
{
    let mut post_data = "nonce=".to_owned();
    post_data.append(nonce);
    post_data.append("&pair=");
    post_data.append(pair);
    post_data.append("&type=");
    post_data.append(ordertype);
    post_data.append("&ordertype=limit&price=");
    post_data.append(price);
    post_data.append("&volume=");
    post_data.append(volume);
    post_data.append("&cl_ord_id=");
    post_data.append(cl_ord_id);
    let api_sign = match kraken_sign_checked(ADD_ORDER_PATH, nonce, post_data.as_str(), api_secret) {
        Some(s) => s,
        None => return None,
    };
    let mut fields: Vec<(String, String)> = Vec::new();
    fields.push(field("nonce", nonce));
    fields.push(field("pair", pair));
    fields.push(field("type", ordertype));
    fields.push(field("ordertype", "limit"));
    fields.push(field("price", price));
    fields.push(field("volume", volume));
    fields.push(field("cl_ord_id", cl_ord_id));
    assert(field_texts(fields@) =~= add_order_fields(
        nonce@,
        pair@,
        ordertype@,
        price@,
        volume@,
        cl_ord_id@,
    ));
    Some(AddOrderRequest { fields, post_data, api_sign })
}

} // verus!
