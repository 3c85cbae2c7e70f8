//! Login: the one-time-password check and the login decision.

use vstd::prelude::*;
use libreauth::oath::HOTPBuilder;
use crate::models::{User, UserModel};
use crate::session::{
    SessionStore, UserSession, SESSION_CAPACITY, SESSION_ID_LEN, is_url_safe, after_insert,
};

verus! {

#[verifier::external_type_specification]
#[verifier::external_body]
pub struct ExOathError(libreauth::oath::Error);

/// The time step of the one-time codes, in seconds.
pub const TOTP_PERIOD: u32 = 30;

/// The number of time steps before and after the current one at which a login
/// code is still accepted.
pub const LOGIN_TOLERANCE: u8 = 1;

/// Whether libreauth's `base32_key` setter accepts `key`. The setter calls
/// `base32::decode` with the RFC 4648 alphabet, which accepts an ASCII string
/// exactly when each character, upper-cased, is a letter `A`-`Z`, a digit `2`-`7`
/// or `=`.
pub open spec fn base32_key_accepted(key: Seq<char>) -> bool {
    forall|i: int|
        0 <= i < key.len() ==> {
            let c = #[trigger] key[i];
            ('A' <= c <= 'Z') || ('a' <= c <= 'z') || ('2' <= c <= '7') || c == '='
        }
}

/// Names whether libreauth's HOTP check (HMAC-SHA1, six decimal digits, no
/// look-ahead) accepts `code` for the base32 `key` at the counter `counter`.
pub uninterp spec fn hotp_accepts(key: Seq<char>, counter: u64, code: Seq<char>) -> bool;

/// Calls libreauth's `HOTPBuilder` with the base32 key and the counter, then
/// `finalize` and, on success, `HOTP::is_valid` on `code`. The source shows that
/// `finalize` fails exactly when the key is refused (the default six-digit output is
/// within the accepted range), and that `is_valid` depends on the key, the counter
/// and the code alone. At the largest counter `is_valid` would overflow, which
/// `requires` leaves out.
#[verifier::external_body]
fn hotp_check(code: &str, key: &str, counter: u64) -> (r: Result<bool, libreauth::oath::Error>)
    requires
        counter < u64::MAX,
    ensures
        r is Err <==> !base32_key_accepted(key@),
        r matches Ok(b) ==> b == hotp_accepts(key@, counter, code@),
{
    match HOTPBuilder::new().base32_key(key).counter(counter).finalize() {
        Ok(hotp) => Ok(hotp.is_valid(code)),
        Err(e) => Err(e),
    }
}

/// Reads the system clock through the `time` crate: `time::now().to_timespec().sec`,
/// the seconds since the Unix epoch. Nothing is promised of the value.
#[verifier::external_body]
fn current_unix_seconds() -> i64 {
    time::now().to_timespec().sec
}

/// The offsets, in time steps, at which a one-time code is tried:
/// `0, -1, 1, -2, 2, ..., -plusminus, plusminus`.
pub open spec fn offset_at(k: int) -> int {
    if k % 2 == 1 { -((k + 1) / 2) } else { k / 2 }
}

/// The whole offset list for `plusminus`, as a sequence.
pub open spec fn offsets(plusminus: nat) -> Seq<int> {
    Seq::new(2 * plusminus + 1, |k: int| offset_at(k))
}

/// Generates the list of offsets from `-plusminus` to `plusminus`, nearest first:
/// `0, -1, 1, -2, 2, ...`.
pub fn plus_or_minus_offset_list(plusminus: u8) -> (offset_list: Vec<i16>)
    ensures
        offset_list@.len() == 2 * plusminus + 1,
        forall|k: int| 0 <= k < offset_list@.len() ==> #[trigger] offset_list@[k] as int == offset_at(k),
{
    let mut offset_list: Vec<i16> = Vec::new();
    offset_list.push(0);
    let end: u16 = plusminus as u16 + 1;
    let mut offset: u16 = 1;
    while offset < end
        invariant
            1 <= offset <= end,
            end == plusminus + 1,
            offset_list@.len() == 2 * offset - 1,
            forall|k: int| 0 <= k < offset_list@.len() ==> #[trigger] offset_list@[k] as int == offset_at(k),
        decreases end - offset,
    {
        let o: i16 = offset as i16;
        assert(o == offset && 0 < o <= 255);
        let ghost n: int = offset_list@.len() as int;
        let ghost prev = offset_list@;
        assert(offset_at(n) == -(offset as int)) by {
            assert(n % 2 == 1);
            assert((n + 1) / 2 == offset);
        }
        assert(offset_at(n + 1) == offset as int) by {
            assert((n + 1) % 2 == 0);
            assert((n + 1) / 2 == offset);
        }
        offset_list.push(-o);
        offset_list.push(o);
        assert forall|k: int| 0 <= k < offset_list@.len() implies offset_list@[k] as int
            == offset_at(k) by {
            if k < n {
                assert(offset_list@[k] == prev[k]);
            }
        }
        offset = offset + 1;
    }
    offset_list
}

/// The offset list runs from `-plusminus` to `plusminus`: every integer of that
/// range occurs in it, nothing outside the range does, and nothing occurs twice.
pub proof fn lemma_offsets_cover_range(plusminus: nat)
    ensures
        offsets(plusminus).len() == 2 * plusminus + 1,
        forall|v: int| -plusminus <= v <= plusminus ==> offsets(plusminus).contains(v),
        forall|k: int|
            0 <= k < offsets(plusminus).len() ==> -plusminus <= #[trigger] offsets(plusminus)[k]
                <= plusminus,
        offsets(plusminus).no_duplicates(),
{
    let s = offsets(plusminus);
    assert forall|v: int| -plusminus <= v <= plusminus implies s.contains(v) by {
        let k: int = if v >= 0 { 2 * v } else { -2 * v - 1 };
        assert(offset_at(k) == v);
        assert(s[k] == v);
    }
    assert forall|k: int| 0 <= k < s.len() implies -plusminus <= #[trigger] s[k] <= plusminus by {
        assert(s[k] == offset_at(k));
    }
    assert forall|i: int, j: int| 0 <= i < s.len() && 0 <= j < s.len() && i != j implies s[i]
        != s[j] by {
        assert(s[i] == offset_at(i));
        assert(s[j] == offset_at(j));
    }
}

/// The time step that a TOTP check counts for the time `t`, in seconds since the
/// Unix epoch: TOTP (RFC 6238) with libreauth's defaults (start 0, a period of
/// `TOTP_PERIOD` seconds) checks the HOTP code at the counter `t / TOTP_PERIOD`,
/// the time taken as an unsigned 64-bit number as libreauth's TOTP casts it.
pub open spec fn time_step(t: int) -> u64 {
    (t as u64) / (TOTP_PERIOD as u64)
}

/// The time steps at which a code is tried around `now`: one per offset of
/// `plus_or_minus_offset_list(plusminus)`, each `TOTP_PERIOD` seconds apart.
pub open spec fn window_steps(now: int, plusminus: nat) -> Seq<u64> {
    Seq::new(2 * plusminus + 1, |k: int| time_step(now + TOTP_PERIOD * offset_at(k)))
}

/// Whether `code` is accepted for `key` around the time `now`: the key is one that
/// libreauth accepts, and the HOTP check accepts the code at one of the steps of
/// `window_steps(now, plusminus)`.
pub open spec fn window_accepts(code: Seq<char>, key: Seq<char>, plusminus: nat, now: int) -> bool {
    &&& base32_key_accepted(key)
    &&& exists|k: int|
        0 <= k < 2 * plusminus + 1 && hotp_accepts(key, #[trigger] window_steps(now, plusminus)[k], code)
}

/// The time steps at which a code is tried around `now`.
pub fn totp_steps(now: i64, plusminus: u8) -> (steps: Vec<u64>)
    ensures
        steps@ == window_steps(now as int, plusminus as nat),
{
    let offset_list = plus_or_minus_offset_list(plusminus);
    proof {
        lemma_offsets_cover_range(plusminus as nat);
    }
    let mut steps: Vec<u64> = Vec::new();
    let mut i: usize = 0;
    while i < offset_list.len()
        invariant
            i <= offset_list@.len(),
            offset_list@.len() == 2 * plusminus + 1,
            forall|k: int| 0 <= k < offset_list@.len() ==> #[trigger] offset_list@[k] as int == offset_at(k),
            forall|k: int|
                0 <= k < offset_list@.len() ==> -plusminus <= #[trigger] offsets(plusminus as nat)[k] <= plusminus,
            steps@.len() == i,
            forall|k: int| 0 <= k < i ==> #[trigger] steps@[k] == window_steps(now as int, plusminus as nat)[k],
        decreases offset_list@.len() - i,
    {
        let offset: i16 = offset_list[i];
        assert(offsets(plusminus as nat)[i as int] == offset_at(i as int));
        assert(-255 <= offset <= 255);
        let t: i128 = now as i128 + 30 * (offset as i128);
        let step: u64 = (t as u64) / 30;
        steps.push(step);
        i = i + 1;
    }
    assert(steps@ =~= window_steps(now as int, plusminus as nat));
    steps
}

/// Whether one of `results` is `true`: a code is valid when one of the tried time
/// steps accepts it.
pub fn any_accepted(results: &Vec<bool>) -> (r: bool)
    ensures
        r == results@.contains(true),
{
    let mut i: usize = 0;
    while i < results.len()
        invariant
            i <= results@.len(),
            forall|k: int| 0 <= k < i ==> !results@[k],
        decreases results@.len() - i,
    {
        if results[i] {
            return true;
        }
        i = i + 1;
    }
    false
}

/// The verdict of the HOTP check at each step of `steps`: `true` where the key is
/// accepted and the code matches at that step.
pub fn step_results(code: &String, key: &String, steps: &Vec<u64>) -> (results: Vec<bool>)
    requires
        forall|k: int| 0 <= k < steps@.len() ==> #[trigger] steps@[k] < u64::MAX,
    ensures
        results@.len() == steps@.len(),
        forall|k: int|
            0 <= k < steps@.len() ==> #[trigger] results@[k] == (base32_key_accepted(key@)
                && hotp_accepts(key@, steps@[k], code@)),
{
    let mut results: Vec<bool> = Vec::new();
    let mut i: usize = 0;
    while i < steps.len()
        invariant
            i <= steps@.len(),
            forall|k: int| 0 <= k < steps@.len() ==> #[trigger] steps@[k] < u64::MAX,
            results@.len() == i,
            forall|k: int|
                0 <= k < i ==> #[trigger] results@[k] == (base32_key_accepted(key@)
                    && hotp_accepts(key@, steps@[k], code@)),
        decreases steps@.len() - i,
    {
        let accepted = match hotp_check(code.as_str(), key.as_str(), steps[i]) {
            Ok(b) => b,
            Err(_) => false,
        };
        results.push(accepted);
        i = i + 1;
    }
    results
}

/// Every time step is below the largest counter.
proof fn lemma_time_step_bound(t: int)
    ensures
        time_step(t) < u64::MAX,
{
    let u = t as u64;
    assert(u / 30 < 0xffff_ffff_ffff_ffffu64) by (bit_vector);
}

/// Whether `code` is accepted for the base32 `key` at the time `now`, or at up to
/// `plusminus` time steps before or after it.
pub fn is_valid_totp_code_at(code: &String, key: &String, plusminus: u8, now: i64) -> (valid: bool)
    ensures
        valid == window_accepts(code@, key@, plusminus as nat, now as int),
{
    let steps = totp_steps(now, plusminus);
    proof {
        assert forall|k: int| 0 <= k < steps@.len() implies #[trigger] steps@[k] < u64::MAX by {
            lemma_time_step_bound(now + TOTP_PERIOD * offset_at(k));
        }
    }
    let results = step_results(code, key, &steps);
    let valid = any_accepted(&results);
    proof {
        if valid {
            let k = choose|k: int| 0 <= k < results@.len() && results@[k] == true;
            assert(results@[k]);
        } else {
            assert forall|k: int|
                0 <= k < 2 * plusminus + 1 implies !(base32_key_accepted(key@) && hotp_accepts(
                key@,
                #[trigger] window_steps(now as int, plusminus as nat)[k],
                code@,
            )) by {
                assert(results@[k] == (base32_key_accepted(key@) && hotp_accepts(key@, steps@[k], code@)));
                assert(!results@.contains(true) ==> results@[k] != true);
            }
        }
    }
    valid
}

/// Checks whether the TOTP `code` is valid for the base32 `key` at the current
/// time, or at up to `plusminus` time steps before or after it: the answer is
/// `window_accepts` at the time that the clock read.
pub fn is_valid_totp_code(code: &String, key: &String, plusminus: u8) -> (valid: bool)
    ensures
        exists|now: i64| valid == window_accepts(code@, key@, plusminus as nat, now as int),
        valid ==> base32_key_accepted(key@),
{
    let now = current_unix_seconds();
    is_valid_totp_code_at(code, key, plusminus, now)
}

/// A wider window accepts every code that a narrower one accepts, around the same
/// time.
pub proof fn lemma_wider_window_accepts(
    code: Seq<char>,
    key: Seq<char>,
    narrow: nat,
    wide: nat,
    now: int,
)
    requires
        narrow <= wide,
        window_accepts(code, key, narrow, now),
    ensures
        window_accepts(code, key, wide, now),
{
    let k = choose|k: int|
        0 <= k < 2 * narrow + 1 && hotp_accepts(key, #[trigger] window_steps(now, narrow)[k], code);
    assert(window_steps(now, wide)[k] == window_steps(now, narrow)[k]);
}

/// A login request: the author's email address and a one-time code.
#[derive(Debug)]
pub struct LoginForm {
    /// Login email address
    pub email: String,
    /// 2FA authentication code
    pub code: String,
}

/// Why a login was refused.
#[derive(Debug)]
pub enum AuthError {
    /// No user has this email address.
    LoginEmailDoesNotExist(String),
    /// The one-time code does not match for this email address.
    InvalidLoginOTP(String, String),
    /// No session id could be made.
    SessionIdUnavailable,
}

/// Whether user `i` is the first one with the email address `email`.
pub open spec fn is_first_with_email(users: Seq<User>, email: Seq<char>, i: int) -> bool {
    &&& 0 <= i < users.len()
    &&& users[i].email@ == email
    &&& forall|j: int| 0 <= j < i ==> users[j].email@ != email
}

/// The first user with the email address `email`, if any.
pub open spec fn first_with_email(users: Seq<User>, email: Seq<char>) -> Option<UserModel> {
    if exists|i: int| is_first_with_email(users, email, i) {
        Some(users[choose|i: int| is_first_with_email(users, email, i)]@)
    } else {
        None
    }
}

/// The first of `users` whose email address is `email`, if any.
pub fn user_with_email(users: Vec<User>, email: &String) -> (r: Option<User>)
    ensures
        match r {
            Some(u) => first_with_email(users@, email@) == Some(u@),
            None => first_with_email(users@, email@) is None,
        },
        r is None <==> forall|i: int| 0 <= i < users@.len() ==> users@[i].email@ != email@,
{
    let mut remaining = users;
    let ghost all = remaining@;
    let mut i: usize = 0;
    while i < remaining.len()
        invariant
            remaining@ == all,
            all == users@,
            i <= all.len(),
            forall|j: int| 0 <= j < i ==> all[j].email@ != email@,
        decreases all.len() - i,
    {
        if remaining[i].email == *email {
            assert(is_first_with_email(all, email@, i as int));
            assert forall|j: int| is_first_with_email(all, email@, j) implies j == i by {
                if j < i {
                } else if j > i {
                    assert(all[i as int].email@ == email@);
                }
            }
            let u = remaining.remove(i);
            assert(u == all[i as int]);
            assert(all[i as int].email@ == email@);
            assert(first_with_email(all, email@) == Some(all[i as int]@));
            return Some(u);
        }
        i = i + 1;
    }
    assert forall|j: int| !is_first_with_email(all, email@, j) by {
        if 0 <= j < all.len() {
            assert(all[j].email@ != email@);
        }
    }
    None
}

/// Opens the session of `user` under the fresh id `session_id`, when there is one:
/// the session is saved under the id and the id is returned. Without an id the
/// store stays as it is.
pub fn open_session(store: &mut SessionStore, user: User, session_id: Option<String>) -> (r: Result<String, AuthError>)
    requires
        old(store).well_formed(),
    ensures
        final(store).well_formed(),
        match session_id {
            None => r matches Err(AuthError::SessionIdUnavailable) && final(store)@ == old(store)@,
            Some(id) => {
                &&& r matches Ok(given) && given@ == id@
                &&& final(store)@ == after_insert(old(store)@, id@, user@, SESSION_CAPACITY as nat)
            },
        },
{
    match session_id {
        None => Err(AuthError::SessionIdUnavailable),
        Some(id) => {
            store.insert(id.clone(), UserSession::new(user));
            Ok(id)
        },
    }
}

/// Decides a login of `user`, once the one-time code check has answered
/// `code_accepted` and, for an accepted code, a fresh session id has been asked
/// for: a refused code gives `InvalidLoginOTP` with the form's email address and
/// code; an accepted code opens the user's session under the id, when there is one.
pub fn login_decision(
    store: &mut SessionStore,
    form: &LoginForm,
    user: User,
    code_accepted: bool,
    session_id: Option<String>,
) -> (r: Result<String, AuthError>)
    requires
        old(store).well_formed(),
    ensures
        final(store).well_formed(),
        r is Ok <==> code_accepted && session_id is Some,
        !code_accepted ==> {
            &&& r matches Err(AuthError::InvalidLoginOTP(e, c))
            &&& e@ == form.email@
            &&& c@ == form.code@
        },
        code_accepted && session_id is None ==> r matches Err(AuthError::SessionIdUnavailable),
        r is Err ==> final(store)@ == old(store)@,
        r matches Ok(id) ==> {
            &&& id@ == session_id.unwrap()@
            &&& final(store)@ == after_insert(old(store)@, id@, user@, SESSION_CAPACITY as nat)
        },
{
    if code_accepted {
        open_session(store, user, session_id)
    } else {
        Err(AuthError::InvalidLoginOTP(form.email.clone(), form.code.clone()))
    }
}

/// Whether the login code of `form` is accepted for `user` at the time `now`: within
/// `LOGIN_TOLERANCE` time steps of it.
pub open spec fn login_code_accepted(form: &LoginForm, user: UserModel, now: i64) -> bool {
    window_accepts(form.code@, user.code, LOGIN_TOLERANCE as nat, now as int)
}

/// Whether a login result follows the code check's answer `accepted`: a refused
/// code gives `InvalidLoginOTP`; an accepted one gives a session id, unless none
/// could be made.
pub open spec fn outcome_follows_check(r: Result<String, AuthError>, accepted: bool) -> bool {
    match r {
        Ok(_) => accepted,
        Err(AuthError::SessionIdUnavailable) => accepted,
        Err(AuthError::InvalidLoginOTP(_, _)) => !accepted,
        Err(AuthError::LoginEmailDoesNotExist(_)) => false,
    }
}

/// Logs in with `form` against `users`: the first user with the form's email
/// address must accept the form's one-time code at the current time or one time
/// step around it. On success a fresh session id is made, the user's session is
/// saved under it in `store`, and the id is returned.
pub fn login_post(store: &mut SessionStore, form: &LoginForm, users: Vec<User>) -> (r: Result<String, AuthError>)
    requires
        old(store).well_formed(),
    ensures
        final(store).well_formed(),
        first_with_email(users@, form.email@) is None <==> r matches Err(
            AuthError::LoginEmailDoesNotExist(_),
        ),
        r matches Err(AuthError::LoginEmailDoesNotExist(e)) ==> e@ == form.email@,
        r matches Err(AuthError::InvalidLoginOTP(e, c)) ==> e@ == form.email@ && c@ == form.code@,
        r is Err ==> final(store)@ == old(store)@,
        match first_with_email(users@, form.email@) {
            Some(u) => exists|now: i64| outcome_follows_check(r, #[trigger] login_code_accepted(form, u, now)),
            None => true,
        },
        r matches Ok(id) ==> {
            &&& first_with_email(users@, form.email@) matches Some(u)
            &&& base32_key_accepted(u.code)
            &&& id@.len() == SESSION_ID_LEN
            &&& is_url_safe(id@)
            &&& final(store)@ == after_insert(old(store)@, id@, u, SESSION_CAPACITY as nat)
        },
{
    let user = match user_with_email(users, &form.email) {
        None => {
            return Err(AuthError::LoginEmailDoesNotExist(form.email.clone()));
        },
        Some(u) => u,
    };
    let ghost user_view = user@;
    let accepted = is_valid_totp_code(&form.code, &user.code, LOGIN_TOLERANCE);
    let ghost now = choose|now: i64|
        accepted == window_accepts(form.code@, user.code@, LOGIN_TOLERANCE as nat, now as int);
    let session_id = if accepted {
        SessionStore::new_id()
    } else {
        None
    };
    let r = login_decision(store, form, user, accepted, session_id);
    proof {
        let found = first_with_email(users@, form.email@);
        assert(found == Some(user_view));
        assert(accepted == login_code_accepted(form, found->0, now));
        assert(outcome_follows_check(r, login_code_accepted(form, found->0, now)));
    }
    r
}

} // verus!
