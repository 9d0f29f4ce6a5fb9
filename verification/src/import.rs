//! The text format of bulk import and export: one account per line, written
//! `name:password:secret` or `name:secret`. Import keeps the name and the
//! secret; the password field is ignored.

use vstd::prelude::*;
use vstd::slice::slice_subrange;
use crate::text::{chars_of, string_of, trim, trim_bounds, eq_ignore_ascii_case, is_blank};
use crate::secret::{check_secret, clean_secret, looks_like_secret, looks_like_secret_spec, SecretCheck, is_base32_symbol, lemma_check_secret_idempotent, lemma_valid_secret_looks_like_secret};
use crate::clock::{is_generated_id, unique_id};
use crate::account::{account_exists, entries_distinct, has_entry, same_entry, Account, AppState};
use crate::text::{is_white_space, lemma_eq_ignore_ascii_case_refl, lemma_eq_ignore_ascii_case_sym, lemma_trim_empty_iff_blank, lemma_trim_unchanged, lemma_trimmed_ends};

verus! {

/// The issuer given to imported accounts.
pub open spec fn import_issuer() -> Seq<char> {
    "Google"@
}

/// The issuer given to imported accounts: `"Google"`.
pub fn default_import_issuer() -> (s: String)
    ensures
        s@ == import_issuer(),
{
    String::from_str("Google")
}

/// The pieces of `s` between the occurrences of `sep` (`str::split`): one more
/// piece than there are separators.
pub open spec fn split_on(s: Seq<char>, sep: char) -> Seq<Seq<char>>
    decreases s.len(),
{
    if s.len() == 0 {
        seq![Seq::<char>::empty()]
    } else {
        let r = split_on(s.drop_last(), sep);
        if s.last() == sep {
            r.push(Seq::<char>::empty())
        } else {
            r.update(r.len() - 1, r.last().push(s.last()))
        }
    }
}

/// `split_on` always gives at least one piece.
pub proof fn lemma_split_on_nonempty(s: Seq<char>, sep: char)
    ensures
        split_on(s, sep).len() >= 1,
    decreases s.len(),
{
    if s.len() > 0 {
        lemma_split_on_nonempty(s.drop_last(), sep);
    }
}

/// `j` is the position of the first `':'` of `t`.
pub open spec fn is_first_colon(t: Seq<char>, j: int) -> bool {
    &&& 0 <= j < t.len()
    &&& t[j] == ':'
    &&& forall|k: int| 0 <= k < j ==> #[trigger] t[k] != ':'
}

/// `j` is the position of the last `':'` of `t`.
pub open spec fn is_last_colon(t: Seq<char>, j: int) -> bool {
    &&& 0 <= j < t.len()
    &&& t[j] == ':'
    &&& forall|k: int| j < k < t.len() ==> #[trigger] t[k] != ':'
}

/// The position of the first `':'` of `t`, or its length when there is none.
pub open spec fn first_colon(t: Seq<char>) -> int {
    if exists|j: int| is_first_colon(t, j) {
        choose|j: int| is_first_colon(t, j)
    } else {
        t.len() as int
    }
}

/// The position of the last `':'` of `t`, or -1 when there is none.
pub open spec fn last_colon(t: Seq<char>) -> int {
    if exists|j: int| is_last_colon(t, j) {
        choose|j: int| is_last_colon(t, j)
    } else {
        -1
    }
}

/// An account as the import sees it: issuer, name, password, secret.
pub type Entry = (Seq<char>, Seq<char>, Seq<char>, Seq<char>);

/// The account a line describes, or `None` when the line is skipped: it is
/// blank, has no `':'`, or its secret is refused.
///
/// The trimmed line is cut at its colons. The name is before the first colon.
/// With two or more colons the secret is after the last one; with one colon the
/// part after it is the secret when it looks like one, and there is no secret
/// otherwise. The password field (between the first and the last colon, or the
/// part after a single colon that is no secret) is ignored: imported accounts
/// have an empty password. Name and secret are trimmed; a secret is normalised
/// by `check_secret`.
pub open spec fn line_entry(line: Seq<char>) -> Option<Entry> {
    let t = trim(line);
    let f = first_colon(t);
    let l = last_colon(t);
    if t.len() == 0 || f == t.len() {
        None
    } else {
        let name = trim(t.subrange(0, f));
        let raw_secret = if l > f {
            Some(trim(t.subrange(l + 1, t.len() as int)))
        } else {
            let second = trim(t.subrange(f + 1, t.len() as int));
            if looks_like_secret_spec(second) {
                Some(second)
            } else {
                None
            }
        };
        match raw_secret {
            Some(raw) => match check_secret(raw) {
                SecretCheck::Valid(s) => Some((import_issuer(), name, Seq::<char>::empty(), s)),
                _ => None,
            },
            None => Some((import_issuer(), name, Seq::<char>::empty(), Seq::<char>::empty())),
        }
    }
}

/// The issuer, name, password and secret of an account.
pub open spec fn entry_of(a: Account) -> Entry {
    (a.issuer@, a.name@, a.password@, a.secret@)
}

/// The entries of a list of accounts, in order.
pub open spec fn entries_of(accounts: Seq<Account>) -> Seq<Entry> {
    accounts.map_values(|a: Account| entry_of(a))
}

/// `e` duplicates some entry of `entries`: issuer and name equal up to ASCII case,
/// password and secret equal.
pub open spec fn has_entry_in(entries: Seq<Entry>, e: Entry) -> bool {
    exists|k: int|
        0 <= k < entries.len() && {
            let x = #[trigger] entries[k];
            &&& eq_ignore_ascii_case(x.0, e.0)
            &&& eq_ignore_ascii_case(x.1, e.1)
            &&& x.2 == e.2
            &&& x.3 == e.3
        }
}

/// The entries that importing `lines`, in order, adds after `existing`: each line
/// that describes an account not yet present (before or among those added).
pub open spec fn imported_entries(existing: Seq<Entry>, lines: Seq<Seq<char>>) -> Seq<Entry>
    decreases lines.len(),
{
    if lines.len() == 0 {
        Seq::empty()
    } else {
        let prev = imported_entries(existing, lines.drop_last());
        match line_entry(lines.last()) {
            Some(e) => if has_entry_in(existing + prev, e) {
                prev
            } else {
                prev.push(e)
            },
            None => prev,
        }
    }
}

/// `a` is an imported account for entry `e`: default digits and period, and a
/// generated identifier.
pub open spec fn is_imported_account(a: Account, e: Entry) -> bool {
    &&& entry_of(a) == e
    &&& a.digits == 6
    &&& a.period == 30
    &&& is_generated_id(a.id@)
}

proof fn lemma_has_entry_in(accounts: Seq<Account>, e: Entry)
    ensures
        has_entry(accounts, e.0, e.1, e.2, e.3) == has_entry_in(entries_of(accounts), e),
{
    if has_entry(accounts, e.0, e.1, e.2, e.3) {
        let i = choose|i: int| 0 <= i < accounts.len() && #[trigger] same_entry(accounts[i], e.0, e.1, e.2, e.3);
        assert(entries_of(accounts)[i] == entry_of(accounts[i]));
    }
    if has_entry_in(entries_of(accounts), e) {
        let k = choose|k: int|
            0 <= k < entries_of(accounts).len() && {
                let x = #[trigger] entries_of(accounts)[k];
                &&& eq_ignore_ascii_case(x.0, e.0)
                &&& eq_ignore_ascii_case(x.1, e.1)
                &&& x.2 == e.2
                &&& x.3 == e.3
            };
        assert(same_entry(accounts[k], e.0, e.1, e.2, e.3));
    }
}

fn string_of_range(cs: &[char], a: usize, b: usize) -> (s: String)
    requires
        a <= b <= cs@.len(),
    ensures
        s@ == cs@.subrange(a as int, b as int),
{
    string_of(slice_subrange(cs, a, b))
}

/// The first `':'` of `t`, as `first_colon` says.
fn find_first_colon(t: &[char]) -> (f: usize)
    ensures
        f as int == first_colon(t@),
{
    let mut i: usize = 0;
    while i < t.len()
        invariant
            i <= t@.len(),
            forall|k: int| 0 <= k < i ==> #[trigger] t@[k] != ':',
        decreases t@.len() - i,
    {
        if t[i] == ':' {
            proof {
                assert(is_first_colon(t@, i as int));
                let j = choose|j: int| is_first_colon(t@, j);
                if j < i {
                    assert(t@[j] != ':');
                }
                if i < j {
                    assert(t@[i as int] != ':');
                }
            }
            return i;
        }
        i += 1;
    }
    assert(!exists|j: int| is_first_colon(t@, j));
    i
}

/// The last `':'` of `t`, as `last_colon` says (`None` for -1).
fn find_last_colon(t: &[char]) -> (l: Option<usize>)
    ensures
        match l {
            Some(p) => p as int == last_colon(t@) && p < t@.len()
                && forall|k: int| p < k < t@.len() ==> #[trigger] t@[k] != ':',
            None => last_colon(t@) == -1 && forall|k: int| 0 <= k < t@.len() ==> #[trigger] t@[k] != ':',
        },
{
    let mut i: usize = t.len();
    while i > 0
        invariant
            i <= t@.len(),
            forall|k: int| i <= k < t@.len() ==> #[trigger] t@[k] != ':',
        decreases i,
    {
        if t[i - 1] == ':' {
            proof {
                let p = i - 1;
                assert(is_last_colon(t@, p));
                let j = choose|j: int| is_last_colon(t@, j);
                if j < p {
                    assert(t@[p] != ':');
                }
                if p < j {
                    assert(t@[j] != ':');
                }
            }
            return Some(i - 1);
        }
        i -= 1;
    }
    assert(!exists|j: int| is_last_colon(t@, j));
    None
}

/// Whether `e` duplicates an account of `accounts`.
fn entry_exists(accounts: &[Account], issuer: &String, name: &String, password: &String, secret: &String) -> (b: bool)
    ensures
        b == has_entry_in(entries_of(accounts@), (issuer@, name@, password@, secret@)),
{
    proof {
        lemma_has_entry_in(accounts@, (issuer@, name@, password@, secret@));
    }
    account_exists(accounts, issuer.as_str(), name.as_str(), password.as_str(), secret.as_str())
}

impl AppState {
    /// Imports the line `cs[a..b]`: adds the account it describes unless the line
    /// is skipped or the account is already present. Returns whether one was added.
    fn import_line(&mut self, cs: &[char], a: usize, b: usize) -> (added: bool)
        requires
            a <= b <= cs@.len(),
        ensures
            final(self).config == old(self).config,
            match line_entry(cs@.subrange(a as int, b as int)) {
                Some(e) => if has_entry_in(entries_of(old(self).accounts@), e) {
                    !added && final(self).accounts@ == old(self).accounts@
                } else {
                    &&& added
                    &&& final(self).accounts@.drop_last() == old(self).accounts@
                    &&& final(self).accounts@.len() == old(self).accounts@.len() + 1
                    &&& is_imported_account(final(self).accounts@.last(), e)
                },
                None => !added && final(self).accounts@ == old(self).accounts@,
            },
    {
        let ghost line = cs@.subrange(a as int, b as int);
        let (ta, tb) = trim_bounds(cs, a, b);
        let t = slice_subrange(cs, ta, tb);
        assert(t@ == trim(line));
        if ta == tb {
            return false;
        }
        let f = find_first_colon(t);
        if f == t.len() {
            return false;
        }
        let l = find_last_colon(t);
        proof {
            assert(is_first_colon(t@, f as int));
            assert(t@[f as int] == ':');
        }
        let l = match l {
            Some(p) => p,
            None => {
                proof {
                    assert(t@[f as int] != ':');
                }
                return false;
            },
        };
        proof {
            if l < f {
                assert(t@[f as int] != ':');
            }
        }
        let (na, nb) = trim_bounds(t, 0, f);
        let name = string_of_range(t, na, nb);
        let secret_raw: Option<String>;
        if l > f {
            let (sa, sb) = trim_bounds(t, l + 1, t.len());
            secret_raw = Some(string_of_range(t, sa, sb));
        } else {
            let (sa, sb) = trim_bounds(t, f + 1, t.len());
            let second = string_of_range(t, sa, sb);
            if looks_like_secret(second.as_str()) {
                secret_raw = Some(second);
            } else {
                secret_raw = None;
            }
        }
        let password = String::new();
        let clean = match secret_raw {
            Some(raw) => match clean_secret(raw.as_str()) {
                Ok(c) => c,
                Err(_) => return false,
            },
            None => String::new(),
        };
        let issuer = default_import_issuer();
        if entry_exists(self.accounts.as_slice(), &issuer, &name, &password, &clean) {
            return false;
        }
        let account = Account {
            id: unique_id(),
            issuer,
            name,
            password,
            secret: clean,
            digits: 6,
            period: 30,
        };
        self.accounts.push(account);
        assert(self.accounts@.drop_last() =~= old(self).accounts@);
        true
    }
}

/// `cur` is `old` followed by one imported account for each entry of `added`,
/// in order.
pub open spec fn extends_by(cur: Seq<Account>, old: Seq<Account>, added: Seq<Entry>) -> bool {
    &&& cur.len() == old.len() + added.len()
    &&& cur.take(old.len() as int) == old
    &&& forall|k: int|
        #![trigger added[k]]
        0 <= k < added.len() ==> is_imported_account(cur.skip(old.len() as int)[k], added[k])
}

proof fn lemma_extends_entries(cur: Seq<Account>, old: Seq<Account>, added: Seq<Entry>)
    requires
        extends_by(cur, old, added),
    ensures
        entries_of(cur) == entries_of(old) + added,
{
    assert forall|k: int| 0 <= k < cur.len() implies entries_of(cur)[k] == (entries_of(old) + added)[k] by {
        if k < old.len() {
            assert(cur.take(old.len() as int)[k] == cur[k]);
        } else {
            let j = k - old.len();
            assert(added[j] == added[j]);
            assert(cur.skip(old.len() as int)[j] == cur[k]);
        }
    }
    assert(entries_of(cur) =~= entries_of(old) + added);
}

proof fn lemma_extends_push(cur: Seq<Account>, old: Seq<Account>, added: Seq<Entry>, a: Account, e: Entry)
    requires
        extends_by(cur, old, added),
        is_imported_account(a, e),
    ensures
        extends_by(cur.push(a), old, added.push(e)),
{
    let c2 = cur.push(a);
    let a2 = added.push(e);
    assert(c2.take(old.len() as int) =~= cur.take(old.len() as int));
    assert forall|k: int| #![trigger a2[k]] 0 <= k < a2.len() implies is_imported_account(
        c2.skip(old.len() as int)[k],
        a2[k],
    ) by {
        if k < added.len() {
            assert(added[k] == added[k]);
            assert(c2.skip(old.len() as int)[k] == cur.skip(old.len() as int)[k]);
        } else {
            assert(c2.skip(old.len() as int)[k] == a);
        }
    }
}

/// Splitting a prefix gives no more pieces than splitting the whole.
proof fn lemma_split_on_prefix_len(s: Seq<char>, k: int)
    requires
        0 <= k <= s.len(),
    ensures
        split_on(s.take(k), '\n').len() <= split_on(s, '\n').len(),
    decreases s.len() - k,
{
    if k < s.len() {
        lemma_split_on_prefix_len(s, k + 1);
        assert(s.take(k + 1).drop_last() =~= s.take(k));
        lemma_split_on_nonempty(s.take(k), '\n');
    } else {
        assert(s.take(k) =~= s);
    }
}

/// Splitting `s` with one more character appended.
proof fn lemma_split_on_push(s: Seq<char>, c: char, sep: char)
    ensures
        split_on(s.push(c), sep) == (if c == sep {
            split_on(s, sep).push(Seq::<char>::empty())
        } else {
            let r = split_on(s, sep);
            r.update(r.len() - 1, r.last().push(c))
        }),
{
    assert(s.push(c).drop_last() =~= s);
}

/// The lines completed in a prefix of `s` (all its pieces but the last) are the
/// first lines of `s`.
proof fn lemma_split_on_done_prefix(s: Seq<char>, k: int)
    requires
        0 <= k <= s.len(),
    ensures
        split_on(s.take(k), '\n').len() >= 1,
        split_on(s.take(k), '\n').len() <= split_on(s, '\n').len(),
        split_on(s.take(k), '\n').drop_last() == split_on(s, '\n').take(split_on(s.take(k), '\n').len() - 1),
    decreases s.len() - k,
{
    lemma_split_on_nonempty(s.take(k), '\n');
    lemma_split_on_prefix_len(s, k);
    if k < s.len() {
        lemma_split_on_done_prefix(s, k + 1);
        assert(s.take(k + 1) =~= s.take(k).push(s[k]));
        lemma_split_on_push(s.take(k), s[k], '\n');
        let p = split_on(s.take(k), '\n');
        let q = split_on(s.take(k + 1), '\n');
        let whole = split_on(s, '\n');
        if s[k] == '\n' {
            assert(q.drop_last() =~= p);
            assert(p.drop_last() =~= whole.take(p.len() - 1));
        } else {
            assert(q.drop_last() =~= p.drop_last());
        }
    } else {
        assert(s.take(k) =~= s);
        let whole = split_on(s, '\n');
        assert(whole.drop_last() =~= whole.take(whole.len() - 1));
    }
}

/// Importing the first `m` lines adds no more than importing them all.
proof fn lemma_imported_prefix_len(existing: Seq<Entry>, lines: Seq<Seq<char>>, m: int)
    requires
        0 <= m <= lines.len(),
    ensures
        imported_entries(existing, lines.take(m)).len() <= imported_entries(existing, lines).len(),
    decreases lines.len(),
{
    if m == lines.len() {
        assert(lines.take(m) =~= lines);
    } else {
        lemma_imported_prefix_len(existing, lines.drop_last(), m);
        assert(lines.drop_last().take(m) =~= lines.take(m));
    }
}

impl AppState {
    /// Bulk import: `text` is cut into lines at its line feeds (a carriage return
    /// before one is white space and trimmed away with the rest), each line is read
    /// as `line_entry` says, and its account is added unless already present
    /// (issuer `Google`, name ignoring ASCII case, password and secret), accounts
    /// added earlier in the same text included. Returns how many were added.
    pub fn bulk_import(&mut self, text: &str) -> (count: u32)
        requires
            imported_entries(entries_of(old(self).accounts@), split_on(text@, '\n')).len() <= u32::MAX,
        ensures
            final(self).config == old(self).config,
            ({
                let added = imported_entries(entries_of(old(self).accounts@), split_on(text@, '\n'));
                &&& count as int == added.len()
                &&& extends_by(final(self).accounts@, old(self).accounts@, added)
            }),
    {
        let ghost before = entries_of(old(self).accounts@);
        let ghost old_accounts = old(self).accounts@;
        let cs = chars_of(text);
        let n = cs.len();
        let mut start: usize = 0;
        let mut count: u32 = 0;
        let mut i: usize = 0;
        assert(cs@.take(0) =~= Seq::<char>::empty());
        assert(extends_by(self.accounts@, old_accounts, Seq::empty())) by {
            assert(self.accounts@.take(old_accounts.len() as int) =~= old_accounts);
        }
        while i < n
            invariant
                self.config == old(self).config,
                cs@ == text@,
                n == cs@.len(),
                imported_entries(before, split_on(cs@, '\n')).len() <= u32::MAX,
                start <= i <= n,
                split_on(cs@.take(i as int), '\n').last() == cs@.subrange(start as int, i as int),
                ({
                    let added = imported_entries(before, split_on(cs@.take(i as int), '\n').drop_last());
                    &&& count as int == added.len()
                    &&& extends_by(self.accounts@, old_accounts, added)
                }),
                before == entries_of(old_accounts),
            decreases n - i,
        {
            let ghost pieces = split_on(cs@.take(i as int), '\n');
            let ghost done = pieces.drop_last();
            let ghost added = imported_entries(before, done);
            proof {
                lemma_split_on_nonempty(cs@.take(i as int), '\n');
                lemma_split_on_push(cs@.take(i as int), cs@[i as int], '\n');
                assert(cs@.take(i + 1) =~= cs@.take(i as int).push(cs@[i as int]));
                lemma_split_on_done_prefix(cs@, i + 1);
            }
            if cs[i] == '\n' {
                proof {
                    lemma_extends_entries(self.accounts@, old_accounts, added);
                    assert(split_on(cs@.take(i + 1), '\n').drop_last() =~= pieces);
                    assert(pieces =~= done.push(cs@.subrange(start as int, i as int)));
                }
                let ghost cur = self.accounts@;
                let was_added = self.import_line(cs.as_slice(), start, i);
                proof {
                    let e = line_entry(cs@.subrange(start as int, i as int));
                    if was_added {
                        lemma_extends_push(cur, old_accounts, added, self.accounts@.last(), e.unwrap());
                        assert(self.accounts@ =~= cur.push(self.accounts@.last()));
                    }
                    let whole = split_on(cs@, '\n');
                    lemma_imported_prefix_len(before, whole, pieces.len() as int);
                    assert(whole.take(pieces.len() as int) == pieces);
                    assert(pieces.drop_last() =~= done);
                    assert(imported_entries(before, pieces).len() == count + (if was_added { 1int } else { 0int }));
                }
                if was_added {
                    count = count + 1;
                }
                start = i + 1;
                assert(cs@.subrange(start as int, i + 1) =~= Seq::<char>::empty());
            } else {
                proof {
                    assert(split_on(cs@.take(i + 1), '\n').drop_last() =~= done);
                    assert(cs@.subrange(start as int, i + 1) =~= cs@.subrange(start as int, i as int).push(cs@[i as int]));
                }
            }
            i += 1;
        }
        assert(cs@.take(n as int) =~= cs@);
        let ghost pieces = split_on(cs@, '\n');
        let ghost done = pieces.drop_last();
        let ghost added = imported_entries(before, done);
        proof {
            lemma_split_on_nonempty(cs@, '\n');
            lemma_extends_entries(self.accounts@, old_accounts, added);
            assert(pieces =~= done.push(cs@.subrange(start as int, n as int)));
        }
        let ghost cur = self.accounts@;
        let was_added = self.import_line(cs.as_slice(), start, n);
        proof {
            let e = line_entry(cs@.subrange(start as int, n as int));
            if was_added {
                lemma_extends_push(cur, old_accounts, added, self.accounts@.last(), e.unwrap());
                assert(self.accounts@ =~= cur.push(self.accounts@.last()));
            }
            assert(imported_entries(before, pieces).len() == count + (if was_added { 1int } else { 0int }));
        }
        if was_added {
            count = count + 1;
        }
        count
    }
}

/// The export line of an account: `name:password` without a secret,
/// `name:secret` without a password, `name:password:secret` otherwise (blank
/// meaning white space only).
pub open spec fn export_line(a: Account) -> Seq<char> {
    if is_blank(a.secret@) {
        a.name@ + seq![':'] + a.password@
    } else if is_blank(a.password@) {
        a.name@ + seq![':'] + a.secret@
    } else {
        a.name@ + seq![':'] + a.password@ + seq![':'] + a.secret@
    }
}

/// The export lines of `accounts`, in order, joined by `'\n'`.
pub open spec fn export_text(accounts: Seq<Account>) -> Seq<char>
    decreases accounts.len(),
{
    if accounts.len() == 0 {
        Seq::empty()
    } else if accounts.len() == 1 {
        export_line(accounts[0])
    } else {
        export_text(accounts.drop_last()) + seq!['\n'] + export_line(accounts.last())
    }
}

fn export_line_of(a: &Account) -> (s: String)
    ensures
        s@ == export_line(*a),
{
    let mut s = a.name.clone();
    s.append(":");
    proof {
        reveal_strlit(":");
    }
    if crate::text::is_blank_text(a.secret.as_str()) {
        s.append(a.password.as_str());
    } else if crate::text::is_blank_text(a.password.as_str()) {
        s.append(a.secret.as_str());
    } else {
        s.append(a.password.as_str());
        s.append(":");
        s.append(a.secret.as_str());
    }
    s
}

impl AppState {
    /// The export text of all accounts and their number (as `u32`, truncating).
    pub fn export_accounts(&self) -> (r: (String, u32))
        ensures
            r.0@ == export_text(self.accounts@),
            r.1 == self.accounts@.len() as u32,
    {
        let mut out = String::new();
        let mut i: usize = 0;
        while i < self.accounts.len()
            invariant
                i <= self.accounts@.len(),
                out@ == export_text(self.accounts@.take(i as int)),
            decreases self.accounts@.len() - i,
        {
            let ghost prefix = self.accounts@.take(i + 1);
            assert(prefix.drop_last() =~= self.accounts@.take(i as int));
            let line = export_line_of(&self.accounts[i]);
            if i > 0 {
                crate::text::push_char(&mut out, '\n');
            }
            out.append(line.as_str());
            proof {
                if i == 0 {
                    assert(out@ =~= export_line(prefix[0]));
                } else {
                    assert(out@ =~= export_text(prefix.drop_last()) + seq!['\n'] + export_line(prefix.last()));
                }
            }
            i += 1;
        }
        assert(self.accounts@.take(i as int) =~= self.accounts@);
        (out, self.accounts.len() as u32)
    }
}

/// A file whose extension (`Path::extension`, as text) is `txt` or `csv` may be
/// read for import.
pub fn is_text_import_extension(extension: Option<&str>) -> (b: bool)
    ensures
        b == match extension {
            Some(e) => e@ == "txt"@ || e@ == "csv"@,
            None => false,
        },
{
    match extension {
        Some(e) => crate::text::str_equal(e, "txt") || crate::text::str_equal(e, "csv"),
        None => false,
    }
}

/// Entry `x` is a duplicate of entry `e`.
pub open spec fn same_entries(x: Entry, e: Entry) -> bool {
    &&& eq_ignore_ascii_case(x.0, e.0)
    &&& eq_ignore_ascii_case(x.1, e.1)
    &&& x.2 == e.2
    &&& x.3 == e.3
}

proof fn lemma_has_entry_in_extend(es: Seq<Entry>, more: Seq<Entry>, e: Entry)
    requires
        has_entry_in(es, e),
    ensures
        has_entry_in(es + more, e),
{
    let k = choose|k: int|
        0 <= k < es.len() && {
            let x = #[trigger] es[k];
            &&& eq_ignore_ascii_case(x.0, e.0)
            &&& eq_ignore_ascii_case(x.1, e.1)
            &&& x.2 == e.2
            &&& x.3 == e.3
        };
    assert((es + more)[k] == es[k]);
}

proof fn lemma_has_own_entry(es: Seq<Entry>, e: Entry)
    ensures
        has_entry_in(es.push(e), e),
{
    lemma_eq_ignore_ascii_case_refl(e.0);
    lemma_eq_ignore_ascii_case_refl(e.1);
    assert(es.push(e)[es.len() as int] == e);
}

/// Every account a line of `lines` describes is present after the import.
proof fn lemma_lines_covered(existing: Seq<Entry>, lines: Seq<Seq<char>>)
    ensures
        forall|i: int|
            #![trigger lines[i]]
            0 <= i < lines.len() && line_entry(lines[i]) is Some ==> has_entry_in(
                existing + imported_entries(existing, lines),
                line_entry(lines[i])->Some_0,
            ),
    decreases lines.len(),
{
    if lines.len() > 0 {
        let prev_lines = lines.drop_last();
        lemma_lines_covered(existing, prev_lines);
        let prev = imported_entries(existing, prev_lines);
        let all = imported_entries(existing, lines);
        let suffix = all.skip(prev.len() as int);
        assert(all =~= prev + suffix);
        assert(existing + all =~= (existing + prev) + suffix);
        assert forall|i: int|
            #![trigger lines[i]]
            0 <= i < lines.len() && line_entry(lines[i]) is Some implies has_entry_in(
            existing + all,
            line_entry(lines[i])->Some_0,
        ) by {
            let e = line_entry(lines[i])->Some_0;
            if i < lines.len() - 1 {
                assert(lines[i] == prev_lines[i]);
                lemma_has_entry_in_extend(existing + prev, suffix, e);
            } else if has_entry_in(existing + prev, e) {
                lemma_has_entry_in_extend(existing + prev, suffix, e);
            } else {
                lemma_has_own_entry(existing + prev, e);
                assert(existing + all =~= (existing + prev).push(e));
            }
        }
    }
}

proof fn lemma_covered_lines_add_nothing(es: Seq<Entry>, lines: Seq<Seq<char>>)
    requires
        forall|i: int|
            #![trigger lines[i]]
            0 <= i < lines.len() && line_entry(lines[i]) is Some ==> has_entry_in(
                es,
                line_entry(lines[i])->Some_0,
            ),
    ensures
        imported_entries(es, lines) == Seq::<Entry>::empty(),
    decreases lines.len(),
{
    if lines.len() > 0 {
        let prev_lines = lines.drop_last();
        assert forall|i: int|
            #![trigger prev_lines[i]]
            0 <= i < prev_lines.len() && line_entry(prev_lines[i]) is Some implies has_entry_in(
            es,
            line_entry(prev_lines[i])->Some_0,
        ) by {
            assert(prev_lines[i] == lines[i]);
        }
        lemma_covered_lines_add_nothing(es, prev_lines);
        assert(es + Seq::<Entry>::empty() =~= es);
        assert(lines.last() == lines[lines.len() - 1]);
    }
}

/// Importing the same lines a second time adds nothing.
pub proof fn lemma_reimport_adds_nothing(existing: Seq<Entry>, lines: Seq<Seq<char>>)
    ensures
        imported_entries(existing + imported_entries(existing, lines), lines) == Seq::<Entry>::empty(),
{
    lemma_lines_covered(existing, lines);
    lemma_covered_lines_add_nothing(existing + imported_entries(existing, lines), lines);
}

/// No two entries of `es` are duplicates.
pub open spec fn entry_seq_distinct(es: Seq<Entry>) -> bool {
    forall|i: int, j: int|
        0 <= i < es.len() && 0 <= j < es.len() && i != j ==> !same_entries(#[trigger] es[i], #[trigger] es[j])
}

proof fn lemma_not_has_entry_in(es: Seq<Entry>, e: Entry, i: int)
    requires
        !has_entry_in(es, e),
        0 <= i < es.len(),
    ensures
        !same_entries(es[i], e),
        !same_entries(e, es[i]),
{
    lemma_eq_ignore_ascii_case_sym(es[i].0, e.0);
    lemma_eq_ignore_ascii_case_sym(es[i].1, e.1);
    if same_entries(es[i], e) {
        assert(has_entry_in(es, e));
    }
}

proof fn lemma_imported_distinct(existing: Seq<Entry>, lines: Seq<Seq<char>>)
    requires
        entry_seq_distinct(existing),
    ensures
        entry_seq_distinct(existing + imported_entries(existing, lines)),
    decreases lines.len(),
{
    if lines.len() > 0 {
        let prev = imported_entries(existing, lines.drop_last());
        lemma_imported_distinct(existing, lines.drop_last());
        match line_entry(lines.last()) {
            Some(e) => {
                if !has_entry_in(existing + prev, e) {
                    let es = existing + prev;
                    let n = es.push(e);
                    assert(existing + imported_entries(existing, lines) =~= n);
                    assert forall|i: int, j: int|
                        0 <= i < n.len() && 0 <= j < n.len() && i != j implies !same_entries(
                        #[trigger] n[i],
                        #[trigger] n[j],
                    ) by {
                        if i == es.len() {
                            lemma_not_has_entry_in(es, e, j);
                        } else if j == es.len() {
                            lemma_not_has_entry_in(es, e, i);
                        } else {
                            assert(n[i] == es[i] && n[j] == es[j]);
                        }
                    }
                }
            },
            None => {},
        }
    }
}

/// A bulk import into accounts without duplicates leaves no duplicates.
pub proof fn lemma_import_keeps_entries_distinct(
    old: Seq<Account>,
    cur: Seq<Account>,
    lines: Seq<Seq<char>>,
)
    requires
        entries_distinct(old),
        extends_by(cur, old, imported_entries(entries_of(old), lines)),
    ensures
        entries_distinct(cur),
{
    let added = imported_entries(entries_of(old), lines);
    assert(entry_seq_distinct(entries_of(old))) by {
        assert forall|i: int, j: int|
            0 <= i < entries_of(old).len() && 0 <= j < entries_of(old).len() && i != j implies !same_entries(
            #[trigger] entries_of(old)[i],
            #[trigger] entries_of(old)[j],
        ) by {
            assert(!same_entry(old[i], old[j].issuer@, old[j].name@, old[j].password@, old[j].secret@));
        }
    }
    lemma_imported_distinct(entries_of(old), lines);
    lemma_extends_entries(cur, old, added);
    assert forall|i: int, j: int|
        0 <= i < cur.len() && 0 <= j < cur.len() && i != j implies !same_entry(
        #[trigger] cur[i],
        (#[trigger] cur[j]).issuer@,
        cur[j].name@,
        cur[j].password@,
        cur[j].secret@,
    ) by {
        assert(entries_of(cur)[i] == entry_of(cur[i]));
        assert(entries_of(cur)[j] == entry_of(cur[j]));
        assert(!same_entries(entries_of(cur)[i], entries_of(cur)[j]));
    }
}

pub open spec fn has_no_colon(s: Seq<char>) -> bool {
    forall|i: int| 0 <= i < s.len() ==> #[trigger] s[i] != ':'
}

/// An account whose export line the import reads back with the same name and
/// secret: the name has no colon, name, password and secret have no white space at their ends,
/// and the line's shape cannot be misread (a password alone has no colon and does
/// not look like a secret; a secret is already normalised, has no colon, and looks
/// like a secret when it stands alone).
pub open spec fn exports_faithfully(a: Account) -> bool {
    &&& has_no_colon(a.name@)
    &&& trim(a.name@) == a.name@
    &&& trim(a.password@) == a.password@
    &&& if a.secret@.len() == 0 {
        &&& has_no_colon(a.password@)
        &&& !looks_like_secret_spec(a.password@)
    } else {
        &&& check_secret(a.secret@) == SecretCheck::Valid(a.secret@)
        &&& trim(a.secret@) == a.secret@
        &&& has_no_colon(a.secret@)
        &&& (a.password@.len() == 0 ==> looks_like_secret_spec(a.secret@))
    }
}

proof fn lemma_first_colon_at(t: Seq<char>, j: int)
    requires
        is_first_colon(t, j),
    ensures
        first_colon(t) == j,
{
    let c = choose|c: int| is_first_colon(t, c);
    if c < j {
        assert(t[c] != ':');
    }
    if j < c {
        assert(t[j] != ':');
    }
}

proof fn lemma_last_colon_at(t: Seq<char>, j: int)
    requires
        is_last_colon(t, j),
    ensures
        last_colon(t) == j,
{
    let c = choose|c: int| is_last_colon(t, c);
    if c < j {
        assert(t[j] != ':');
    }
    if j < c {
        assert(t[c] != ':');
    }
}

/// A line `name:rest` with a colon-free name: the first colon follows the name.
proof fn lemma_line_ends(name: Seq<char>, rest: Seq<char>)
    requires
        trim(name) == name,
        rest.len() > 0 ==> !is_white_space(rest.last()),
    ensures
        ({
            let line = name + seq![':'] + rest;
            trim(line) == line
        }),
{
    let line = name + seq![':'] + rest;
    if name.len() > 0 {
        lemma_trimmed_ends(name);
        assert(line[0] == name[0]);
    } else {
        assert(line[0] == ':');
    }
    if rest.len() > 0 {
        assert(line.last() == rest.last());
    } else {
        assert(line.last() == ':');
    }
    lemma_trim_unchanged(line);
}

/// The entry the import makes of an account that exports faithfully: the
/// import's issuer, its name and secret, and no password.
pub open spec fn imported_entry_of(a: Account) -> Entry {
    (import_issuer(), a.name@, Seq::<char>::empty(), a.secret@)
}

/// What the export writes for an account, the import reads back as that
/// account's name and secret (with the import's issuer and no password), for
/// accounts that export faithfully.
pub proof fn lemma_export_import_line(a: Account)
    requires
        exports_faithfully(a),
    ensures
        line_entry(export_line(a)) == Some(imported_entry_of(a)),
{
    let name = a.name@;
    let pw = a.password@;
    let sec = a.secret@;
    let colon = seq![':'];
    assert(name.subrange(0, name.len() as int) =~= name);
    if sec.len() == 0 {
        lemma_trim_empty_iff_blank(sec);
        let line = name + colon + pw;
        assert(export_line(a) == line);
        if pw.len() > 0 {
            lemma_trimmed_ends(pw);
        }
        lemma_line_ends(name, pw);
        let f = name.len() as int;
        assert(is_first_colon(line, f)) by {
            assert forall|k: int| 0 <= k < f implies #[trigger] line[k] != ':' by {
                assert(line[k] == name[k]);
            }
        }
        assert(is_last_colon(line, f)) by {
            assert forall|k: int| f < k < line.len() implies #[trigger] line[k] != ':' by {
                assert(line[k] == pw[k - f - 1]);
            }
        }
        lemma_first_colon_at(line, f);
        lemma_last_colon_at(line, f);
        assert(line.subrange(0, f) =~= name);
        assert(line.subrange(f + 1, line.len() as int) =~= pw);
    } else {
        lemma_trimmed_ends(sec);
        lemma_trim_empty_iff_blank(sec);
        lemma_trim_empty_iff_blank(pw);
        assert(!is_blank(sec));
        if is_blank(pw) {
            let line = name + colon + sec;
            assert(export_line(a) == line);
            lemma_line_ends(name, sec);
            let f = name.len() as int;
            assert(is_first_colon(line, f)) by {
                assert forall|k: int| 0 <= k < f implies #[trigger] line[k] != ':' by {
                    assert(line[k] == name[k]);
                }
            }
            assert(is_last_colon(line, f)) by {
                assert forall|k: int| f < k < line.len() implies #[trigger] line[k] != ':' by {
                    assert(line[k] == sec[k - f - 1]);
                }
            }
            lemma_first_colon_at(line, f);
            lemma_last_colon_at(line, f);
            assert(line.subrange(0, f) =~= name);
            assert(line.subrange(f + 1, line.len() as int) =~= sec);
        } else {
            let rest = pw + colon + sec;
            let line = name + colon + rest;
            assert(export_line(a) =~= line);
            assert(rest.last() == sec.last());
            lemma_line_ends(name, rest);
            let f = name.len() as int;
            let l = f + 1 + pw.len();
            assert(is_first_colon(line, f)) by {
                assert forall|k: int| 0 <= k < f implies #[trigger] line[k] != ':' by {
                    assert(line[k] == name[k]);
                }
            }
            assert(line[l] == ':');
            assert(is_last_colon(line, l)) by {
                assert forall|k: int| l < k < line.len() implies #[trigger] line[k] != ':' by {
                    assert(line[k] == sec[k - l - 1]);
                }
            }
            lemma_first_colon_at(line, f);
            lemma_last_colon_at(line, l);
            assert(line.subrange(0, f) =~= name);
            assert(line.subrange(f + 1, l) =~= pw);
            assert(line.subrange(l + 1, line.len() as int) =~= sec);
        }
    }
}

/// A line `name:secret` whose secret is a normalised valid secret of at least 16
/// symbols is read as an account with that name and secret (issuer `Google`, no
/// password), for a name without colons or surrounding white space.
pub proof fn lemma_name_secret_line(name: Seq<char>, sec: Seq<char>)
    requires
        has_no_colon(name),
        trim(name) == name,
        check_secret(sec) == SecretCheck::Valid(sec),
        sec.len() >= 16,
    ensures
        line_entry(name + seq![':'] + sec) == Some((import_issuer(), name, Seq::<char>::empty(), sec)),
{
    lemma_check_secret_idempotent(sec);
    assert forall|i: int| 0 <= i < sec.len() implies '\0' <= #[trigger] sec[i] <= '\u{7f}' by {
        assert(is_base32_symbol(sec[i]));
    }
    lemma_valid_secret_looks_like_secret(sec);
    assert(!is_white_space(sec[0])) by {
        assert(is_base32_symbol(sec[0]));
    }
    assert(!is_white_space(sec.last())) by {
        assert(is_base32_symbol(sec[sec.len() - 1]));
    }
    lemma_trim_unchanged(sec);
    let colon = seq![':'];
    let line = name + colon + sec;
    lemma_line_ends(name, sec);
    let f = name.len() as int;
    assert(is_first_colon(line, f)) by {
        assert forall|k: int| 0 <= k < f implies #[trigger] line[k] != ':' by {
            assert(line[k] == name[k]);
        }
    }
    assert(is_last_colon(line, f)) by {
        assert forall|k: int| f < k < line.len() implies #[trigger] line[k] != ':' by {
            assert(line[k] == sec[k - f - 1]);
            assert(is_base32_symbol(sec[k - f - 1]));
        }
    }
    lemma_first_colon_at(line, f);
    lemma_last_colon_at(line, f);
    assert(line.subrange(0, f) =~= name);
    assert(line.subrange(f + 1, line.len() as int) =~= sec);
}

proof fn lemma_split_on_concat(x: Seq<char>, sep: char, y: Seq<char>)
    ensures
        split_on(x + seq![sep] + y, sep) == split_on(x, sep) + split_on(y, sep),
    decreases y.len(),
{
    lemma_split_on_nonempty(y, sep);
    if y.len() == 0 {
        assert(x + seq![sep] + y =~= x.push(sep));
        assert(x.push(sep).drop_last() =~= x);
        assert(split_on(y, sep) =~= seq![Seq::<char>::empty()]);
    } else {
        let y0 = y.drop_last();
        let c = y.last();
        lemma_split_on_concat(x, sep, y0);
        lemma_split_on_nonempty(y0, sep);
        assert((x + seq![sep] + y).drop_last() =~= x + seq![sep] + y0);
        let a = split_on(x, sep);
        let b = split_on(y0, sep);
        if c == sep {
            assert((a + b).push(Seq::<char>::empty()) =~= a + b.push(Seq::<char>::empty()));
        } else {
            let ab = a + b;
            assert(ab.update(ab.len() - 1, ab.last().push(c)) =~= a + b.update(b.len() - 1, b.last().push(c)));
        }
    }
}

proof fn lemma_split_on_without_sep(y: Seq<char>, sep: char)
    requires
        forall|i: int| 0 <= i < y.len() ==> #[trigger] y[i] != sep,
    ensures
        split_on(y, sep) == seq![y],
    decreases y.len(),
{
    if y.len() > 0 {
        let y0 = y.drop_last();
        assert forall|i: int| 0 <= i < y0.len() implies #[trigger] y0[i] != sep by {
            assert(y0[i] == y[i]);
        }
        lemma_split_on_without_sep(y0, sep);
        assert(y[y.len() - 1] != sep);
        assert(y0.push(y.last()) =~= y);
        assert(seq![y0].update(0, y0.push(y.last())) =~= seq![y]);
    } else {
        assert(y =~= Seq::<char>::empty());
    }
}

pub open spec fn has_no_line_feed(s: Seq<char>) -> bool {
    forall|i: int| 0 <= i < s.len() ==> #[trigger] s[i] != '\n'
}

/// The lines of an export text are the export lines of the accounts.
proof fn lemma_split_export(accounts: Seq<Account>)
    requires
        accounts.len() > 0,
        forall|i: int| 0 <= i < accounts.len() ==> has_no_line_feed(export_line(#[trigger] accounts[i])),
    ensures
        split_on(export_text(accounts), '\n') == accounts.map_values(|a: Account| export_line(a)),
    decreases accounts.len(),
{
    let last = export_line(accounts.last());
    assert(has_no_line_feed(export_line(accounts[accounts.len() - 1])));
    lemma_split_on_without_sep(last, '\n');
    if accounts.len() == 1 {
        assert(accounts.map_values(|a: Account| export_line(a)) =~= seq![last]);
    } else {
        let init = accounts.drop_last();
        assert forall|i: int| 0 <= i < init.len() implies has_no_line_feed(export_line(#[trigger] init[i])) by {
            assert(init[i] == accounts[i]);
        }
        lemma_split_export(init);
        lemma_split_on_concat(export_text(init), '\n', last);
        assert(accounts.map_values(|a: Account| export_line(a)) =~= init.map_values(|a: Account| export_line(a)) + seq![last]);
    }
}

/// No two accounts have the same name (ASCII case ignored) and secret.
pub open spec fn import_keys_distinct(accounts: Seq<Account>) -> bool {
    forall|i: int, j: int|
        0 <= i < accounts.len() && 0 <= j < accounts.len() && i != j ==> !same_entries(
            imported_entry_of(#[trigger] accounts[i]),
            imported_entry_of(#[trigger] accounts[j]),
        )
}

proof fn lemma_import_export_lines(accounts: Seq<Account>)
    requires
        forall|i: int| 0 <= i < accounts.len() ==> exports_faithfully(#[trigger] accounts[i]),
        import_keys_distinct(accounts),
    ensures
        imported_entries(Seq::empty(), accounts.map_values(|a: Account| export_line(a)))
            == accounts.map_values(|a: Account| imported_entry_of(a)),
    decreases accounts.len(),
{
    let lines = accounts.map_values(|a: Account| export_line(a));
    let want = accounts.map_values(|a: Account| imported_entry_of(a));
    if accounts.len() > 0 {
        let init = accounts.drop_last();
        let a = accounts.last();
        assert(exports_faithfully(accounts[accounts.len() - 1]));
        assert forall|i: int, j: int|
            0 <= i < init.len() && 0 <= j < init.len() && i != j implies !same_entries(
            imported_entry_of(#[trigger] init[i]),
            imported_entry_of(#[trigger] init[j]),
        ) by {
            assert(init[i] == accounts[i] && init[j] == accounts[j]);
        }
        assert forall|i: int| 0 <= i < init.len() implies exports_faithfully(#[trigger] init[i]) by {
            assert(init[i] == accounts[i]);
        }
        lemma_import_export_lines(init);
        assert(lines.drop_last() =~= init.map_values(|a: Account| export_line(a)));
        lemma_export_import_line(a);
        let prev = init.map_values(|a: Account| imported_entry_of(a));
        let e = imported_entry_of(a);
        assert(Seq::<Entry>::empty() + prev =~= prev);
        if has_entry_in(prev, e) {
            let k = choose|k: int|
                0 <= k < prev.len() && {
                    let x = #[trigger] prev[k];
                    &&& eq_ignore_ascii_case(x.0, e.0)
                    &&& eq_ignore_ascii_case(x.1, e.1)
                    &&& x.2 == e.2
                    &&& x.3 == e.3
                };
            assert(prev[k] == imported_entry_of(accounts[k]));
            assert(a == accounts[accounts.len() - 1]);
            assert(!same_entries(imported_entry_of(accounts[k]), imported_entry_of(accounts[accounts.len() - 1])));
        }
        assert(want =~= prev.push(e));
    }
}

/// Exporting accounts and bulk-importing the text into an empty list gives back,
/// in order, their names and secrets (with the import's issuer and no password), for
/// accounts that export faithfully, have no line feed in their export lines, and
/// are not duplicates of one another.
pub proof fn lemma_export_then_import(accounts: Seq<Account>)
    requires
        forall|i: int| 0 <= i < accounts.len() ==> exports_faithfully(#[trigger] accounts[i]),
        forall|i: int| 0 <= i < accounts.len() ==> has_no_line_feed(export_line(#[trigger] accounts[i])),
        import_keys_distinct(accounts),
    ensures
        imported_entries(entries_of(Seq::<Account>::empty()), split_on(export_text(accounts), '\n'))
            == accounts.map_values(|a: Account| imported_entry_of(a)),
{
    assert(entries_of(Seq::<Account>::empty()) =~= Seq::<Entry>::empty());
    if accounts.len() == 0 {
        let lines = split_on(export_text(accounts), '\n');
        assert(lines == seq![Seq::<char>::empty()]);
        assert(line_entry(lines.last()) is None) by {
            assert(lines.last() == Seq::<char>::empty());
            lemma_trim_empty_iff_blank(Seq::<char>::empty());
        }
        assert(lines.drop_last() =~= Seq::<Seq<char>>::empty());
        assert(imported_entries(Seq::<Entry>::empty(), lines.drop_last()) == Seq::<Entry>::empty());
        assert(accounts.map_values(|a: Account| imported_entry_of(a)) =~= Seq::<Entry>::empty());
    } else {
        lemma_split_export(accounts);
        lemma_import_export_lines(accounts);
    }
}

} // verus!
