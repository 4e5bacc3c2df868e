//! The ledger's on-disk layout and the checks a mutation goes through
//! before the store is touched: resolving the elided posting and, in
//! strict mode, refusing undeclared accounts.

use vstd::prelude::*;

use crate::date::Date;
use crate::error::JamaError;
use crate::model::{resolve_fits, Transaction};
use crate::text::{append_str, chars_of, string_of};

verus! {

/// `root.join(name)` for a relative `name`: a `/` between them unless the
/// root is empty or already ends in one.
pub open spec fn join_path(root: Seq<char>, name: Seq<char>) -> Seq<char> {
    if root.len() == 0 || root.last() == '/' {
        root + name
    } else {
        root + seq!['/'] + name
    }
}

fn join_path_exec(root: &str, name: &str) -> (r: String)
    ensures
        r@ == join_path(root@, name@),
{
    let mut v = chars_of(root);
    if v.len() > 0 && v[v.len() - 1] != '/' {
        v.push('/');
    }
    append_str(&mut v, name);
    string_of(&v)
}

/// The on-disk layout of a ledger directory: `jama.db`, `jama.beancount`
/// and `rules/`.
#[derive(Debug)]
pub struct Paths {
    pub root: String,
    pub db: String,
    pub text: String,
    pub rules_dir: String,
}

impl Paths {
    pub fn for_root(root: &str) -> (r: Paths)
        ensures
            r.root@ == root@,
            r.db@ == join_path(root@, "jama.db"@),
            r.text@ == join_path(root@, "jama.beancount"@),
            r.rules_dir@ == join_path(root@, "rules"@),
    {
        Paths {
            root: String::from_str(root),
            db: join_path_exec(root, "jama.db"),
            text: join_path_exec(root, "jama.beancount"),
            rules_dir: join_path_exec(root, "rules"),
        }
    }
}

/// Filters for listing transactions; all optional, all must hold.
#[derive(Debug)]
pub struct ListFilter {
    pub since: Option<Date>,
    pub until: Option<Date>,
    pub account: Option<String>,
    pub payee: Option<String>,
    pub tag: Option<String>,
    pub limit: Option<u32>,
}

impl Default for ListFilter {
    fn default() -> (r: Self)
        ensures
            r.since is None,
            r.until is None,
            r.account is None,
            r.payee is None,
            r.tag is None,
            r.limit is None,
    {
        ListFilter { since: None, until: None, account: None, payee: None, tag: None, limit: None }
    }
}

/// What adding a transaction stores: its postings with the elided amount
/// resolved; or the imbalance.
pub fn prepare_transaction(txn: Transaction) -> (r: Result<Transaction, JamaError>)
    requires
        resolve_fits(txn.postings@),
    ensures
        match r {
            Ok(t) => crate::model::resolve_result(txn.postings@) matches Ok(fill) && t.id == txn.id && t.date
                == txn.date && t.flag == txn.flag && t.payee == txn.payee && t.narration == txn.narration
                && t.tags == txn.tags && t.links == txn.links && t.meta == txn.meta && t.postings@.len()
                == txn.postings@.len() && (forall|i: int|
                0 <= i < t.postings@.len() ==> crate::model::resolved_from(
                    #[trigger] txn.postings@[i],
                    t.postings@[i],
                    fill,
                )) && crate::model::balances(t.postings@),
            Err(e) => crate::model::resolve_result(txn.postings@) matches Err(d) && e matches JamaError::Imbalance(
                imb,
            ) && imb.details@ == d && imb.date == txn.date && imb.narration == txn.narration,
        },
{
    let mut txn = txn;
    match txn.resolve_postings() {
        Ok(resolved) => {
            txn.postings = resolved;
            Ok(txn)
        },
        Err(imb) => Err(JamaError::Imbalance(imb)),
    }
}

/// The first posting account (in order) that `declared` lacks: strict
/// mode refuses the transaction for it.
pub fn first_undeclared(txn: &Transaction, declared: &Vec<String>) -> (r: Option<String>)
    ensures
        match r {
            Some(a) => exists|i: int|
                0 <= i < txn.postings@.len() && (#[trigger] txn.postings@[i]).account@ == a@
                    && !crate::model::strings_view(declared@).contains(a@) && (forall|j: int|
                    0 <= j < i ==> crate::model::strings_view(declared@).contains(
                        (#[trigger] txn.postings@[j]).account@,
                    )),
            None => forall|i: int|
                0 <= i < txn.postings@.len() ==> crate::model::strings_view(declared@).contains(
                    (#[trigger] txn.postings@[i]).account@,
                ),
        },
{
    let ghost dv = crate::model::strings_view(declared@);
    let mut i: usize = 0;
    while i < txn.postings.len()
        invariant
            i <= txn.postings.len(),
            dv == crate::model::strings_view(declared@),
            forall|j: int| 0 <= j < i ==> dv.contains((#[trigger] txn.postings@[j]).account@),
        decreases txn.postings.len() - i,
    {
        let name = chars_of(txn.postings[i].account.as_str());
        let mut found = false;
        let mut k: usize = 0;
        while k < declared.len()
            invariant
                k <= declared.len(),
                dv == crate::model::strings_view(declared@),
                found == exists|q: int| 0 <= q < k && dv[q] == name@,
            decreases declared.len() - k,
        {
            let d = chars_of(declared[k].as_str());
            if crate::text::chars_eq(&d, &name) {
                found = true;
            }
            assert(dv[k as int] == declared@[k as int]@);
            k += 1;
        }
        if !found {
            assert(!dv.contains(name@));
            return Some(String::from_str(txn.postings[i].account.as_str()));
        }
        i += 1;
    }
    None
}

} // verus!
