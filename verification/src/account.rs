//! Accounts, the application state that holds them, and the operations on it.

use vstd::prelude::*;
use crate::text::{is_blank, is_blank_text, str_eq_ignore_ascii_case, str_equal, eq_ignore_ascii_case, lemma_eq_ignore_ascii_case_refl, lemma_eq_ignore_ascii_case_sym};
use crate::secret::{check_secret, clean_secret, error_check, SecretCheck, SecretError};
use crate::clock::{is_generated_id, unique_id};

verus! {

/// One stored account.
#[derive(Clone, Debug)]
pub struct Account {
    pub id: String,
    pub issuer: String,
    pub name: String,
    pub password: String,
    pub secret: String,
    pub digits: u32,
    pub period: u32,
}

impl Default for Account {
    /// Empty texts, 6 digits, a 30 second period.
    fn default() -> (a: Self)
        ensures
            a.id@ == Seq::<char>::empty(),
            a.issuer@ == Seq::<char>::empty(),
            a.name@ == Seq::<char>::empty(),
            a.password@ == Seq::<char>::empty(),
            a.secret@ == Seq::<char>::empty(),
            a.digits == 6,
            a.period == 30,
    {
        Account {
            id: String::new(),
            issuer: String::new(),
            name: String::new(),
            password: String::new(),
            secret: String::new(),
            digits: 6,
            period: 30,
        }
    }
}

/// A field-for-field copy of `a`.
fn copy_account(a: &Account) -> (b: Account)
    ensures
        b == *a,
{
    Account {
        id: a.id.clone(),
        issuer: a.issuer.clone(),
        name: a.name.clone(),
        password: a.password.clone(),
        secret: a.secret.clone(),
        digits: a.digits,
        period: a.period,
    }
}

/// An account's public details, secret included.
#[derive(Clone, Debug)]
pub struct AccountDetails {
    pub id: String,
    pub issuer: String,
    pub name: String,
    pub password: String,
    pub secret: String,
}

/// Where accounts are stored, when not in the default data directory.
#[derive(Clone, Debug)]
pub struct AppConfig {
    custom_data_path: Option<String>,
}

impl AppConfig {
    pub closed spec fn custom_path(self) -> Option<String> {
        self.custom_data_path
    }

    /// A configuration with the given data directory (`None`: the default one).
    pub fn new(custom_data_path: Option<String>) -> (c: Self)
        ensures
            c.custom_path() == custom_data_path,
    {
        AppConfig { custom_data_path }
    }

    /// The chosen data directory, if one was chosen.
    pub fn custom_data_path(&self) -> (p: Option<String>)
        ensures
            p == self.custom_path(),
    {
        match &self.custom_data_path {
            Some(p) => Some(p.clone()),
            None => None,
        }
    }

    /// Chooses `path` as the data directory.
    pub fn set_custom_data_path(&mut self, path: String)
        ensures
            final(self).custom_path() == Some(path),
    {
        self.custom_data_path = Some(path);
    }
}

impl Default for AppConfig {
    /// No data directory chosen.
    fn default() -> (c: Self)
        ensures
            c.custom_path() is None,
    {
        AppConfig { custom_data_path: None }
    }
}

/// The accounts and the configuration.
pub struct AppState {
    pub accounts: Vec<Account>,
    pub config: AppConfig,
}

/// `a` is the entry (issuer, name, password, secret): issuer and name equal up to
/// ASCII case, password and secret equal.
pub open spec fn same_entry(
    a: Account,
    issuer: Seq<char>,
    name: Seq<char>,
    password: Seq<char>,
    secret: Seq<char>,
) -> bool {
    &&& eq_ignore_ascii_case(a.issuer@, issuer)
    &&& eq_ignore_ascii_case(a.name@, name)
    &&& a.password@ == password
    &&& a.secret@ == secret
}

/// Some account of `accounts` is the entry (issuer, name, password, secret).
pub open spec fn has_entry(
    accounts: Seq<Account>,
    issuer: Seq<char>,
    name: Seq<char>,
    password: Seq<char>,
    secret: Seq<char>,
) -> bool {
    exists|i: int| 0 <= i < accounts.len() && #[trigger] same_entry(accounts[i], issuer, name, password, secret)
}

/// Whether an account with this issuer and name (ASCII case ignored), password and
/// secret is already stored.
pub fn account_exists(
    accounts: &[Account],
    issuer: &str,
    name: &str,
    password: &str,
    secret: &str,
) -> (b: bool)
    ensures
        b == has_entry(accounts@, issuer@, name@, password@, secret@),
{
    let mut i: usize = 0;
    while i < accounts.len()
        invariant
            i <= accounts@.len(),
            forall|j: int| 0 <= j < i ==> !#[trigger] same_entry(accounts@[j], issuer@, name@, password@, secret@),
        decreases accounts@.len() - i,
    {
        let a = &accounts[i];
        if str_eq_ignore_ascii_case(a.issuer.as_str(), issuer) && str_eq_ignore_ascii_case(
            a.name.as_str(),
            name,
        ) && str_equal(a.password.as_str(), password) && str_equal(a.secret.as_str(), secret) {
            assert(same_entry(accounts@[i as int], issuer@, name@, password@, secret@));
            return true;
        }
        i += 1;
    }
    false
}

pub open spec fn opt_text(o: Option<String>) -> Option<Seq<char>> {
    match o {
        Some(s) => Some(s@),
        None => None,
    }
}

/// The secret stored for a typed secret: none or a blank one gives the empty
/// secret, any other is normalised by `check_secret`.
pub open spec fn secret_field(secret: Option<Seq<char>>) -> SecretCheck {
    match secret {
        Some(raw) => if is_blank(raw) {
            SecretCheck::Valid(Seq::empty())
        } else {
            check_secret(raw)
        },
        None => SecretCheck::Valid(Seq::empty()),
    }
}

/// `a` is a newly added account with these fields, the default 6 digits and
/// 30 second period, and a generated identifier.
pub open spec fn is_new_account(
    a: Account,
    issuer: Seq<char>,
    name: Seq<char>,
    password: Seq<char>,
    secret: Seq<char>,
) -> bool {
    &&& a.issuer@ == issuer
    &&& a.name@ == name
    &&& a.password@ == password
    &&& a.secret@ == secret
    &&& a.digits == 6
    &&& a.period == 30
    &&& is_generated_id(a.id@)
}

/// The stored secret for an optional typed one, as `secret_field` says.
fn secret_for(secret: Option<String>) -> (r: Result<String, SecretError>)
    ensures
        match r {
            Ok(s) => secret_field(opt_text(secret)) == SecretCheck::Valid(s@),
            Err(e) => secret_field(opt_text(secret)) == error_check(e),
        },
{
    match secret {
        Some(raw) => {
            if is_blank_text(raw.as_str()) {
                Ok(String::new())
            } else {
                clean_secret(raw.as_str())
            }
        },
        None => Ok(String::new()),
    }
}

/// `i` is the position of the first account whose identifier is `id`.
pub open spec fn is_first_with_id(accounts: Seq<Account>, id: Seq<char>, i: int) -> bool {
    &&& 0 <= i < accounts.len()
    &&& accounts[i].id@ == id
    &&& forall|j: int| 0 <= j < i ==> (#[trigger] accounts[j]).id@ != id
}

/// The position of the first account whose identifier is `id`, if any.
pub open spec fn index_of_id(accounts: Seq<Account>, id: Seq<char>) -> Option<int> {
    if exists|i: int| is_first_with_id(accounts, id, i) {
        Some(choose|i: int| is_first_with_id(accounts, id, i))
    } else {
        None
    }
}

/// There is only one first account with a given identifier.
pub proof fn lemma_first_with_id_unique(accounts: Seq<Account>, id: Seq<char>, i: int, k: int)
    requires
        is_first_with_id(accounts, id, i),
        is_first_with_id(accounts, id, k),
    ensures
        i == k,
{
    if i < k {
        assert(accounts[i].id@ != id);
    } else if k < i {
        assert(accounts[k].id@ != id);
    }
}

/// No account has the identifier `id` exactly when there is no first one.
pub proof fn lemma_index_of_id_none(accounts: Seq<Account>, id: Seq<char>)
    ensures
        index_of_id(accounts, id) is None <==> forall|j: int| 0 <= j < accounts.len() ==> (#[trigger] accounts[j]).id@ != id,
    decreases accounts.len(),
{
    if !(forall|j: int| 0 <= j < accounts.len() ==> (#[trigger] accounts[j]).id@ != id) {
        let j = choose|j: int| 0 <= j < accounts.len() && (#[trigger] accounts[j]).id@ == id;
        lemma_some_first_with_id(accounts, id, j);
    }
}

proof fn lemma_some_first_with_id(accounts: Seq<Account>, id: Seq<char>, j: int)
    requires
        0 <= j < accounts.len(),
        accounts[j].id@ == id,
    ensures
        exists|i: int| is_first_with_id(accounts, id, i),
    decreases j,
{
    if exists|k: int| 0 <= k < j && (#[trigger] accounts[k]).id@ == id {
        let k = choose|k: int| 0 <= k < j && (#[trigger] accounts[k]).id@ == id;
        lemma_some_first_with_id(accounts, id, k);
    } else {
        assert(is_first_with_id(accounts, id, j));
    }
}

/// The position of the first account with identifier `id`.
pub fn find_account(accounts: &[Account], id: &str) -> (r: Option<usize>)
    ensures
        match r {
            Some(i) => index_of_id(accounts@, id@) == Some(i as int),
            None => index_of_id(accounts@, id@) is None,
        },
{
    let mut i: usize = 0;
    while i < accounts.len()
        invariant
            i <= accounts@.len(),
            forall|j: int| 0 <= j < i ==> (#[trigger] accounts@[j]).id@ != id@,
        decreases accounts@.len() - i,
    {
        if str_equal(accounts[i].id.as_str(), id) {
            proof {
                assert(is_first_with_id(accounts@, id@, i as int));
                let k = choose|k: int| is_first_with_id(accounts@, id@, k);
                lemma_first_with_id_unique(accounts@, id@, i as int, k);
            }
            return Some(i);
        }
        i += 1;
    }
    proof {
        lemma_index_of_id_none(accounts@, id@);
    }
    None
}

/// `accounts` without those whose identifier is `id`, the others in order.
pub open spec fn without_id(accounts: Seq<Account>, id: Seq<char>) -> Seq<Account>
    decreases accounts.len(),
{
    if accounts.len() == 0 {
        accounts
    } else if accounts.last().id@ == id {
        without_id(accounts.drop_last(), id)
    } else {
        without_id(accounts.drop_last(), id).push(accounts.last())
    }
}

/// For each identifier of `ids` in turn, the first account with it, if any.
pub open spec fn reordered(accounts: Seq<Account>, ids: Seq<String>) -> Seq<Account>
    decreases ids.len(),
{
    if ids.len() == 0 {
        Seq::empty()
    } else {
        let r = reordered(accounts, ids.drop_last());
        match index_of_id(accounts, ids.last()@) {
            Some(i) => r.push(accounts[i]),
            None => r,
        }
    }
}

/// Why an account operation was refused.
#[derive(Clone, Debug)]
pub enum AccountError {
    /// No account has the given identifier.
    NotFound,
    /// The new secret was refused.
    InvalidSecret(SecretError),
}

impl AccountError {
    /// The text shown to the user for this error.
    pub fn message(&self) -> (m: String)
        ensures
            m@ == match self {
                AccountError::NotFound => "Account not found"@,
                AccountError::InvalidSecret(e) => e.message_text(),
            },
    {
        match self {
            AccountError::NotFound => String::from_str("Account not found"),
            AccountError::InvalidSecret(e) => e.message(),
        }
    }
}

impl AppState {
    /// Adds an account with a fresh identifier, 6 digits and a 30 second period.
    /// A missing password is empty; a missing or blank secret is empty, any other is
    /// normalised by `clean_secret`, whose refusal is returned with nothing changed.
    /// When an account with the same issuer and name (ASCII case ignored), password
    /// and secret exists nothing is added and the result is `Ok(false)`; otherwise
    /// the account is appended and the result is `Ok(true)` (the list must be saved).
    pub fn add_account(
        &mut self,
        issuer: String,
        name: String,
        password: Option<String>,
        secret: Option<String>,
    ) -> (res: Result<bool, SecretError>)
        ensures
            final(self).config == old(self).config,
            match secret_field(opt_text(secret)) {
                SecretCheck::Valid(s) => {
                    let pw = match password {
                        Some(p) => p@,
                        None => Seq::<char>::empty(),
                    };
                    &&& if has_entry(old(self).accounts@, issuer@, name@, pw, s) {
                        &&& res == Ok::<bool, SecretError>(false)
                        &&& final(self).accounts@ == old(self).accounts@
                    } else {
                        &&& res == Ok::<bool, SecretError>(true)
                        &&& final(self).accounts@.len() == old(self).accounts@.len() + 1
                        &&& final(self).accounts@.drop_last() == old(self).accounts@
                        &&& is_new_account(final(self).accounts@.last(), issuer@, name@, pw, s)
                    }
                    &&& has_entry(final(self).accounts@, issuer@, name@, pw, s)
                },
                other => {
                    &&& res matches Err(e) && error_check(e) == other
                    &&& final(self).accounts@ == old(self).accounts@
                },
            },
    {
        let id = unique_id();
        let password = match password {
            Some(p) => p,
            None => String::new(),
        };
        let secret = match secret_for(secret) {
            Ok(s) => s,
            Err(e) => return Err(e),
        };
        if account_exists(
            self.accounts.as_slice(),
            issuer.as_str(),
            name.as_str(),
            password.as_str(),
            secret.as_str(),
        ) {
            return Ok(false);
        }
        let account = Account { id, issuer, name, password, secret, digits: 6, period: 30 };
        self.accounts.push(account);
        assert(self.accounts@.drop_last() =~= old(self).accounts@);
        proof {
            let last = self.accounts@.len() - 1;
            lemma_eq_ignore_ascii_case_refl(issuer@);
            lemma_eq_ignore_ascii_case_refl(name@);
            assert(same_entry(self.accounts@[last], issuer@, name@, password@, secret@));
        }
        Ok(true)
    }

    /// Removes every account whose identifier is `id`, keeping the others in order.
    pub fn remove_account(&mut self, id: &str)
        ensures
            final(self).config == old(self).config,
            final(self).accounts@ == without_id(old(self).accounts@, id@),
            final(self).accounts@ == old(self).accounts@.filter(other_id(id@)),
    {
        proof {
            lemma_without_id_is_filter(old(self).accounts@, id@);
        }
        let mut kept: Vec<Account> = Vec::new();
        let mut i: usize = 0;
        while i < self.accounts.len()
            invariant
                self.accounts@ == old(self).accounts@,
                i <= self.accounts@.len(),
                kept@ == without_id(self.accounts@.take(i as int), id@),
            decreases self.accounts@.len() - i,
        {
            assert(self.accounts@.take(i + 1).drop_last() =~= self.accounts@.take(i as int));
            if !str_equal(self.accounts[i].id.as_str(), id) {
                kept.push(copy_account(&self.accounts[i]));
            }
            i += 1;
        }
        assert(self.accounts@.take(i as int) =~= self.accounts@);
        self.accounts = kept;
    }

    /// Edits the first account whose identifier is `id`: sets its issuer and name,
    /// its password when one is given, and its secret when one is given (blank:
    /// empty, otherwise normalised by `clean_secret`). When the new secret is
    /// refused, issuer, name and password are already changed and the secret is
    /// kept. No such account: `NotFound`, nothing changed.
    pub fn edit_account(
        &mut self,
        id: &str,
        issuer: String,
        name: String,
        password: Option<String>,
        secret: Option<String>,
    ) -> (res: Result<(), AccountError>)
        ensures
            final(self).config == old(self).config,
            match index_of_id(old(self).accounts@, id@) {
                None => {
                    &&& res matches Err(AccountError::NotFound)
                    &&& final(self).accounts@ == old(self).accounts@
                },
                Some(i) => {
                    let before = old(self).accounts@[i];
                    let after = final(self).accounts@[i];
                    &&& final(self).accounts@ == old(self).accounts@.update(i, after)
                    &&& after.id == before.id
                    &&& after.issuer == issuer
                    &&& after.name == name
                    &&& after.password == match password {
                        Some(p) => p,
                        None => before.password,
                    }
                    &&& after.digits == before.digits
                    &&& after.period == before.period
                    &&& match secret {
                        None => res is Ok && after.secret == before.secret,
                        Some(raw) => match secret_field(Some(raw@)) {
                            SecretCheck::Valid(s) => res is Ok && after.secret@ == s,
                            other => {
                                &&& res matches Err(AccountError::InvalidSecret(e)) && error_check(e) == other
                                &&& after.secret == before.secret
                            },
                        },
                    }
                },
            },
    {
        let i = match find_account(self.accounts.as_slice(), id) {
            Some(i) => i,
            None => return Err(AccountError::NotFound),
        };
        let before = copy_account(&self.accounts[i]);
        let new_password = match password {
            Some(p) => p,
            None => before.password.clone(),
        };
        let mut edited = Account {
            id: before.id.clone(),
            issuer,
            name,
            password: new_password,
            secret: before.secret.clone(),
            digits: before.digits,
            period: before.period,
        };
        let mut outcome: Result<(), AccountError> = Ok(());
        match secret {
            None => {},
            Some(raw) => {
                match secret_for(Some(raw)) {
                    Ok(s) => {
                        edited.secret = s;
                    },
                    Err(e) => {
                        outcome = Err(AccountError::InvalidSecret(e));
                    },
                }
            },
        }
        self.accounts[i] = edited;
        outcome
    }

    /// The details of the first account whose identifier is `id`.
    pub fn get_account_details(&self, id: &str) -> (res: Result<AccountDetails, AccountError>)
        ensures
            match index_of_id(self.accounts@, id@) {
                None => res matches Err(AccountError::NotFound),
                Some(i) => res matches Ok(d) && {
                    let a = self.accounts@[i];
                    &&& d.id == a.id
                    &&& d.issuer == a.issuer
                    &&& d.name == a.name
                    &&& d.password == a.password
                    &&& d.secret == a.secret
                },
            },
    {
        match find_account(self.accounts.as_slice(), id) {
            None => Err(AccountError::NotFound),
            Some(i) => {
                let a = &self.accounts[i];
                Ok(
                    AccountDetails {
                        id: a.id.clone(),
                        issuer: a.issuer.clone(),
                        name: a.name.clone(),
                        password: a.password.clone(),
                        secret: a.secret.clone(),
                    },
                )
            },
        }
    }

    /// Replaces the list by, for each identifier of `ids` in turn, the first account
    /// with that identifier; identifiers without an account are skipped, and
    /// accounts whose identifier is not listed are dropped.
    pub fn reorder_accounts(&mut self, ids: &[String])
        ensures
            final(self).config == old(self).config,
            final(self).accounts@ == reordered(old(self).accounts@, ids@),
    {
        let mut result: Vec<Account> = Vec::new();
        let mut k: usize = 0;
        while k < ids.len()
            invariant
                self.accounts@ == old(self).accounts@,
                k <= ids@.len(),
                result@ == reordered(self.accounts@, ids@.take(k as int)),
            decreases ids@.len() - k,
        {
            assert(ids@.take(k + 1).drop_last() =~= ids@.take(k as int));
            assert(ids@.take(k + 1).last() == ids@[k as int]);
            match find_account(self.accounts.as_slice(), ids[k].as_str()) {
                Some(i) => {
                    result.push(copy_account(&self.accounts[i]));
                },
                None => {},
            }
            k += 1;
        }
        assert(ids@.take(k as int) =~= ids@);
        self.accounts = result;
    }
}

/// No two accounts of `accounts` are the same entry (issuer and name up to ASCII
/// case, password, secret).
pub open spec fn entries_distinct(accounts: Seq<Account>) -> bool {
    forall|i: int, j: int|
        0 <= i < accounts.len() && 0 <= j < accounts.len() && i != j ==> !same_entry(
            #[trigger] accounts[i],
            (#[trigger] accounts[j]).issuer@,
            accounts[j].name@,
            accounts[j].password@,
            accounts[j].secret@,
        )
}

/// Appending an account whose entry is not yet present keeps the entries
/// distinct: `add_account` never stores a duplicate.
pub proof fn lemma_add_keeps_entries_distinct(accounts: Seq<Account>, a: Account)
    requires
        entries_distinct(accounts),
        !has_entry(accounts, a.issuer@, a.name@, a.password@, a.secret@),
    ensures
        entries_distinct(accounts.push(a)),
{
    let n = accounts.push(a);
    assert forall|i: int, j: int|
        0 <= i < n.len() && 0 <= j < n.len() && i != j implies !same_entry(
        #[trigger] n[i],
        (#[trigger] n[j]).issuer@,
        n[j].name@,
        n[j].password@,
        n[j].secret@,
    ) by {
        if i == accounts.len() {
            assert(n[j] == accounts[j]);
            lemma_eq_ignore_ascii_case_sym(a.issuer@, accounts[j].issuer@);
            lemma_eq_ignore_ascii_case_sym(a.name@, accounts[j].name@);
            if same_entry(n[i], n[j].issuer@, n[j].name@, n[j].password@, n[j].secret@) {
                assert(same_entry(accounts[j], a.issuer@, a.name@, a.password@, a.secret@));
            }
        } else if j == accounts.len() {
            assert(n[i] == accounts[i]);
        } else {
            assert(n[i] == accounts[i]);
            assert(n[j] == accounts[j]);
        }
    }
}

/// After removal no account has the removed identifier, so it can no longer be
/// found.
pub proof fn lemma_removed_not_found(accounts: Seq<Account>, id: Seq<char>)
    ensures
        forall|k: int| 0 <= k < without_id(accounts, id).len() ==> (#[trigger] without_id(accounts, id)[k]).id@ != id,
        index_of_id(without_id(accounts, id), id) is None,
    decreases accounts.len(),
{
    if accounts.len() > 0 {
        lemma_removed_not_found(accounts.drop_last(), id);
        let r = without_id(accounts.drop_last(), id);
        if accounts.last().id@ != id {
            assert forall|k: int| 0 <= k < r.push(accounts.last()).len() implies (#[trigger] r.push(
                accounts.last(),
            )[k]).id@ != id by {
                if k < r.len() {
                    assert(r.push(accounts.last())[k] == r[k]);
                }
            }
        }
    }
    lemma_index_of_id_none(without_id(accounts, id), id);
}

/// The test "has an identifier other than `id`".
pub open spec fn other_id(id: Seq<char>) -> spec_fn(Account) -> bool {
    |a: Account| a.id@ != id
}

/// Removal keeps exactly the accounts with another identifier, in their order:
/// it is the filter of the list by `a.id != id`.
pub proof fn lemma_without_id_is_filter(accounts: Seq<Account>, id: Seq<char>)
    ensures
        without_id(accounts, id) == accounts.filter(other_id(id)),
    decreases accounts.len(),
{
    reveal(Seq::filter);
    if accounts.len() > 0 {
        lemma_without_id_is_filter(accounts.drop_last(), id);
    }
}

/// Removing an identifier that no account has changes nothing.
proof fn lemma_without_absent_id(accounts: Seq<Account>, id: Seq<char>)
    requires
        forall|k: int| 0 <= k < accounts.len() ==> (#[trigger] accounts[k]).id@ != id,
    ensures
        without_id(accounts, id) == accounts,
    decreases accounts.len(),
{
    if accounts.len() > 0 {
        assert(accounts.last() == accounts[accounts.len() - 1]);
        assert forall|k: int| 0 <= k < accounts.drop_last().len() implies (#[trigger] accounts.drop_last()[k]).id@ != id by {
            assert(accounts.drop_last()[k] == accounts[k]);
        }
        lemma_without_absent_id(accounts.drop_last(), id);
        assert(accounts.drop_last().push(accounts.last()) =~= accounts);
    }
}

/// When no two accounts share an identifier, removing the identifier of the
/// account at `i` removes that account alone and keeps the others in order.
pub proof fn lemma_remove_own_id(accounts: Seq<Account>, i: int)
    requires
        ids_distinct(accounts),
        0 <= i < accounts.len(),
    ensures
        without_id(accounts, accounts[i].id@) == accounts.remove(i),
    decreases accounts.len(),
{
    let id = accounts[i].id@;
    let n = accounts.len();
    let init = accounts.drop_last();
    assert forall|a: int, b: int| 0 <= a < init.len() && 0 <= b < init.len() && a != b implies (#[trigger] init[a]).id@ != (#[trigger] init[b]).id@ by {
        assert(init[a] == accounts[a] && init[b] == accounts[b]);
    }
    if i == n - 1 {
        assert forall|k: int| 0 <= k < init.len() implies (#[trigger] init[k]).id@ != id by {
            assert(init[k] == accounts[k]);
            assert(accounts[k].id@ != accounts[n - 1].id@);
        }
        lemma_without_absent_id(init, id);
        assert(accounts.remove(i) =~= init);
    } else {
        assert(accounts.last().id@ != id) by {
            assert(accounts.last() == accounts[n - 1]);
        }
        assert(init[i] == accounts[i]);
        lemma_remove_own_id(init, i);
        assert(accounts.remove(i) =~= init.remove(i).push(accounts.last()));
    }
}

/// No two accounts share an identifier.
pub open spec fn ids_distinct(accounts: Seq<Account>) -> bool {
    forall|i: int, j: int|
        0 <= i < accounts.len() && 0 <= j < accounts.len() && i != j ==> (#[trigger] accounts[i]).id@
            != (#[trigger] accounts[j]).id@
}

/// `ids` lists the identifiers of a prefix of `accounts`.
proof fn lemma_reordered_prefix(accounts: Seq<Account>, ids: Seq<String>, k: int)
    requires
        ids_distinct(accounts),
        0 <= k <= accounts.len(),
        ids.len() == k,
        forall|i: int| 0 <= i < k ==> (#[trigger] ids[i])@ == accounts[i].id@,
    ensures
        reordered(accounts, ids) == accounts.take(k),
    decreases k,
{
    if k > 0 {
        lemma_reordered_prefix(accounts, ids.drop_last(), k - 1);
        assert(ids.last()@ == accounts[k - 1].id@);
        assert(is_first_with_id(accounts, ids.last()@, k - 1));
        let c = choose|i: int| is_first_with_id(accounts, ids.last()@, i);
        lemma_first_with_id_unique(accounts, ids.last()@, k - 1, c);
        assert(accounts.take(k - 1).push(accounts[k - 1]) =~= accounts.take(k));
    } else {
        assert(accounts.take(0) =~= Seq::<Account>::empty());
    }
}

/// Reordering by the accounts' own identifiers, in their order, changes nothing
/// when no two accounts share an identifier.
pub proof fn lemma_reorder_by_own_ids(accounts: Seq<Account>, ids: Seq<String>)
    requires
        ids_distinct(accounts),
        ids.len() == accounts.len(),
        forall|i: int| 0 <= i < ids.len() ==> (#[trigger] ids[i])@ == accounts[i].id@,
    ensures
        reordered(accounts, ids) == accounts,
{
    lemma_reordered_prefix(accounts, ids, accounts.len() as int);
    assert(accounts.take(accounts.len() as int) =~= accounts);
}

} // verus!
