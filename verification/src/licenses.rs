//! License-text retrieval planning and accounting. The distinct license and
//! exception identifiers across all records are collected, sorted and
//! deduplicated, so that an identifier shared by many dependencies is
//! fetched once; each identifier yields one artifact with a deterministic
//! source URL and destination path. The retrievals themselves run outside
//! this library, concurrently; their outcomes are judged all-or-nothing.

use vstd::prelude::*;
use vstd::string::StringExecFns;

use crate::metadata::{clone_strings, DependencyData, DependencyModel};
use crate::text::{lemma_sort_dedup_spec, sort_dedup_spec, sorted_dedup, strictly_sorted};

verus! {

/// One planned retrieval: a license or exception identifier, the file the
/// text is to be written to, and the URL it is to be fetched from.
#[derive(Clone, Debug, PartialEq, Eq)]
pub struct LicenseData {
    pub name: String,
    pub path: String,
    pub url: String,
}

/// The mathematical image of a planned retrieval.
#[verifier::ext_equal]
pub ghost struct LicenseModel {
    pub name: Seq<char>,
    pub path: Seq<char>,
    pub url: Seq<char>,
}

impl View for LicenseData {
    type V = LicenseModel;

    open spec fn view(&self) -> LicenseModel {
        LicenseModel { name: self.name@, path: self.path@, url: self.url@ }
    }
}

impl DeepView for LicenseData {
    type V = LicenseModel;

    open spec fn deep_view(&self) -> LicenseModel {
        self.view()
    }
}

/// Every license identifier of every record, in record order.
pub open spec fn all_licenses(records: Seq<DependencyModel>) -> Seq<Seq<char>>
    decreases records.len(),
{
    if records.len() == 0 {
        Seq::<Seq<char>>::empty()
    } else {
        all_licenses(records.drop_last()) + records.last().licenses
    }
}

/// Every exception identifier of every record, in record order.
pub open spec fn all_exceptions(records: Seq<DependencyModel>) -> Seq<Seq<char>>
    decreases records.len(),
{
    if records.len() == 0 {
        Seq::<Seq<char>>::empty()
    } else {
        all_exceptions(records.drop_last()) + records.last().exceptions
    }
}

/// The URL a license text is retrieved from, a fixed template around the
/// identifier.
pub open spec fn license_url(name: Seq<char>) -> Seq<char> {
    "https://raw.githubusercontent.com/spdx/license-list-data/main/text/"@ + name + ".txt"@
}

/// The file a license text is written to, under the licenses directory.
pub open spec fn license_path(output_dir: Seq<char>, name: Seq<char>) -> Seq<char> {
    output_dir + "/licenses/"@ + name
}

/// The file an exception text is written to, under the nested exceptions
/// directory.
pub open spec fn exception_path(output_dir: Seq<char>, name: Seq<char>) -> Seq<char> {
    output_dir + "/licenses/exceptions/"@ + name
}

/// The artifacts for a list of license identifiers, in list order.
pub open spec fn license_artifacts(dir: Seq<char>, names: Seq<Seq<char>>) -> Seq<LicenseModel> {
    names.map_values(
        |n: Seq<char>| LicenseModel { name: n, path: license_path(dir, n), url: license_url(n) },
    )
}

/// The artifacts for a list of exception identifiers, in list order.
pub open spec fn exception_artifacts(dir: Seq<char>, names: Seq<Seq<char>>) -> Seq<LicenseModel> {
    names.map_values(
        |n: Seq<char>| LicenseModel { name: n, path: exception_path(dir, n), url: license_url(n) },
    )
}

/// The retrieval URL of an identifier.
fn build_url(name: &String) -> (r: String)
    ensures
        r@ == license_url(name@),
{
    let mut u = String::from_str(
        "https://raw.githubusercontent.com/spdx/license-list-data/main/text/",
    );
    u.append(name.as_str());
    u.append(".txt");
    u
}

/// The destination file of a license identifier.
fn build_license_path(output_dir: &str, name: &String) -> (r: String)
    ensures
        r@ == license_path(output_dir@, name@),
{
    let mut p = String::from_str(output_dir);
    p.append("/licenses/");
    p.append(name.as_str());
    p
}

/// The destination file of an exception identifier.
fn build_exception_path(output_dir: &str, name: &String) -> (r: String)
    ensures
        r@ == exception_path(output_dir@, name@),
{
    let mut p = String::from_str(output_dir);
    p.append("/licenses/exceptions/");
    p.append(name.as_str());
    p
}

/// The union of all license identifiers across the records, sorted and
/// deduplicated.
fn collect_licenses(crates_data: &Vec<DependencyData>) -> (r: Vec<String>)
    ensures
        r.deep_view() == sort_dedup_spec(all_licenses(crates_data.deep_view())),
{
    let mut all: Vec<String> = Vec::new();
    let mut k: usize = 0;
    proof {
        assert(crates_data.deep_view().take(0) =~= Seq::<DependencyModel>::empty());
        assert(all.deep_view() =~= all_licenses(crates_data.deep_view().take(0)));
    }
    while k < crates_data.len()
        invariant
            k <= crates_data.len(),
            all.deep_view() == all_licenses(crates_data.deep_view().take(k as int)),
        decreases crates_data.len() - k,
    {
        let ghost pre = all.deep_view();
        let mut chunk = clone_strings(&crates_data[k].licenses);
        all.append(&mut chunk);
        proof {
            let taken = crates_data.deep_view().take(k + 1);
            assert(taken.drop_last() =~= crates_data.deep_view().take(k as int));
            assert(taken.last() == crates_data.deep_view()[k as int]);
            assert(all.deep_view() =~= pre + crates_data.deep_view()[k as int].licenses);
        }
        k = k + 1;
    }
    proof {
        assert(crates_data.deep_view().take(crates_data.deep_view().len() as int)
            =~= crates_data.deep_view());
    }
    sorted_dedup(&all)
}

/// The union of all exception identifiers across the records, sorted and
/// deduplicated.
fn collect_exceptions(crates_data: &Vec<DependencyData>) -> (r: Vec<String>)
    ensures
        r.deep_view() == sort_dedup_spec(all_exceptions(crates_data.deep_view())),
{
    let mut all: Vec<String> = Vec::new();
    let mut k: usize = 0;
    proof {
        assert(crates_data.deep_view().take(0) =~= Seq::<DependencyModel>::empty());
        assert(all.deep_view() =~= all_exceptions(crates_data.deep_view().take(0)));
    }
    while k < crates_data.len()
        invariant
            k <= crates_data.len(),
            all.deep_view() == all_exceptions(crates_data.deep_view().take(k as int)),
        decreases crates_data.len() - k,
    {
        let ghost pre = all.deep_view();
        let mut chunk = clone_strings(&crates_data[k].exceptions);
        all.append(&mut chunk);
        proof {
            let taken = crates_data.deep_view().take(k + 1);
            assert(taken.drop_last() =~= crates_data.deep_view().take(k as int));
            assert(taken.last() == crates_data.deep_view()[k as int]);
            assert(all.deep_view() =~= pre + crates_data.deep_view()[k as int].exceptions);
        }
        k = k + 1;
    }
    proof {
        assert(crates_data.deep_view().take(crates_data.deep_view().len() as int)
            =~= crates_data.deep_view());
    }
    sorted_dedup(&all)
}

/// The whole fetch plan: one artifact per distinct license identifier, and
/// one per distinct exception identifier.
pub struct DownloadPlan {
    pub licenses: Vec<LicenseData>,
    pub exceptions: Vec<LicenseData>,
}

/// Builds the artifacts for a sorted identifier list.
fn build_artifacts(names: &Vec<String>, output_dir: &str, exceptions: bool) -> (r: Vec<
    LicenseData,
>)
    ensures
        !exceptions ==> r.deep_view() == license_artifacts(output_dir@, names.deep_view()),
        exceptions ==> r.deep_view() == exception_artifacts(output_dir@, names.deep_view()),
{
    let mut arts: Vec<LicenseData> = Vec::new();
    let mut k: usize = 0;
    while k < names.len()
        invariant
            k <= names.len(),
            !exceptions ==> arts.deep_view() == license_artifacts(
                output_dir@,
                names.deep_view().take(k as int),
            ),
            exceptions ==> arts.deep_view() == exception_artifacts(
                output_dir@,
                names.deep_view().take(k as int),
            ),
        decreases names.len() - k,
    {
        let ghost pre = arts.deep_view();
        let name = &names[k];
        let path = if exceptions {
            build_exception_path(output_dir, name)
        } else {
            build_license_path(output_dir, name)
        };
        let art = LicenseData { name: name.clone(), path, url: build_url(name) };
        let ghost am = art@;
        arts.push(art);
        proof {
            assert(arts.deep_view() =~= pre.push(am));
            if exceptions {
                assert(exception_artifacts(output_dir@, names.deep_view().take(k + 1))
                    =~= exception_artifacts(output_dir@, names.deep_view().take(k as int)).push(
                    am,
                ));
            } else {
                assert(license_artifacts(output_dir@, names.deep_view().take(k + 1))
                    =~= license_artifacts(output_dir@, names.deep_view().take(k as int)).push(
                    am,
                ));
            }
        }
        k = k + 1;
    }
    proof {
        assert(names.deep_view().take(names.deep_view().len() as int) =~= names.deep_view());
    }
    arts
}

/// Plans the retrieval of every license and exception text the records
/// reference: identifiers are united across all records, sorted and
/// deduplicated, and each distinct identifier yields exactly one artifact,
/// with its URL and destination computed from the identifier alone.
pub fn plan_downloads(crates_data: &Vec<DependencyData>, output_dir: &str) -> (r: DownloadPlan)
    ensures
        r.licenses.deep_view() == license_artifacts(
            output_dir@,
            sort_dedup_spec(all_licenses(crates_data.deep_view())),
        ),
        r.exceptions.deep_view() == exception_artifacts(
            output_dir@,
            sort_dedup_spec(all_exceptions(crates_data.deep_view())),
        ),
{
    let licenses = collect_licenses(crates_data);
    let exceptions = collect_exceptions(crates_data);
    let license_arts = build_artifacts(&licenses, output_dir, false);
    let exception_arts = build_artifacts(&exceptions, output_dir, true);
    DownloadPlan { licenses: license_arts, exceptions: exception_arts }
}

/// The plan holds one artifact per distinct identifier: artifact names are
/// pairwise distinct, and an identifier has an artifact exactly when some
/// record references it.
pub proof fn lemma_plan_dedups(dir: Seq<char>, records: Seq<DependencyModel>)
    ensures
        ({
            let names = sort_dedup_spec(all_licenses(records));
            let arts = license_artifacts(dir, names);
            &&& arts.len() == names.len()
            &&& forall|i: int, j: int|
                0 <= i < j < arts.len() ==> (#[trigger] arts[i]).name != (#[trigger] arts[j]).name
            &&& forall|t: Seq<char>|
                #[trigger] names.contains(t) <==> all_licenses(records).contains(t)
        }),
{
    let names = sort_dedup_spec(all_licenses(records));
    let arts = license_artifacts(dir, names);
    lemma_sort_dedup_spec(all_licenses(records));
    assert forall|i: int, j: int| 0 <= i < j < arts.len() implies (#[trigger] arts[i]).name
        != (#[trigger] arts[j]).name by {
        assert(crate::text::lex_lt(names[i], names[j]));
        assert(arts[i].name == names[i] && arts[j].name == names[j]);
    }
}

/// Planning is deterministic: the same records and output directory always
/// yield the same artifacts, in the same order, with the same identifier
/// sets.
pub proof fn lemma_plan_deterministic(
    records: Seq<DependencyModel>,
    dir: Seq<char>,
    r1: (Seq<LicenseModel>, Seq<LicenseModel>),
    r2: (Seq<LicenseModel>, Seq<LicenseModel>),
)
    requires
        r1 == (
            license_artifacts(dir, sort_dedup_spec(all_licenses(records))),
            exception_artifacts(dir, sort_dedup_spec(all_exceptions(records))),
        ),
        r2 == (
            license_artifacts(dir, sort_dedup_spec(all_licenses(records))),
            exception_artifacts(dir, sort_dedup_spec(all_exceptions(records))),
        ),
    ensures
        r1 == r2,
{
}

/// The reported end of one retrieval task: the identifier it fetched, and
/// whether fetching and writing succeeded.
#[derive(Clone, Debug, PartialEq, Eq)]
pub struct FetchOutcome {
    pub name: String,
    pub succeeded: bool,
}

/// The mathematical image of a task outcome.
#[verifier::ext_equal]
pub ghost struct FetchOutcomeModel {
    pub name: Seq<char>,
    pub succeeded: bool,
}

impl View for FetchOutcome {
    type V = FetchOutcomeModel;

    open spec fn view(&self) -> FetchOutcomeModel {
        FetchOutcomeModel { name: self.name@, succeeded: self.succeeded }
    }
}

impl DeepView for FetchOutcome {
    type V = FetchOutcomeModel;

    open spec fn deep_view(&self) -> FetchOutcomeModel {
        self.view()
    }
}

/// The failure of the fetch phase: the first identifier whose retrieval
/// failed.
#[derive(Clone, Debug, PartialEq, Eq)]
pub struct FetchError {
    pub identifier: String,
}

/// Every task of the batch succeeded.
pub open spec fn all_succeeded(outcomes: Seq<FetchOutcomeModel>) -> bool {
    forall|j: int| 0 <= j < outcomes.len() ==> (#[trigger] outcomes[j]).succeeded
}

/// Judges the fetch phase once every task has reported: `Ok` exactly when
/// every task succeeded; otherwise the error names the first identifier
/// whose retrieval failed, so a single failure fails the whole batch even
/// though every other task ran to completion.
pub fn fetch_result(outcomes: &Vec<FetchOutcome>) -> (r: Result<(), FetchError>)
    ensures
        (r is Ok) == all_succeeded(outcomes.deep_view()),
        r matches Err(e) ==> exists|j: int|
            0 <= j < outcomes.deep_view().len() && !(#[trigger] outcomes.deep_view()[j]).succeeded
                && e.identifier@ == outcomes.deep_view()[j].name && (forall|i: int|
                0 <= i < j ==> (#[trigger] outcomes.deep_view()[i]).succeeded),
{
    let mut k: usize = 0;
    while k < outcomes.len()
        invariant
            k <= outcomes.len(),
            forall|i: int| 0 <= i < k ==> (#[trigger] outcomes.deep_view()[i]).succeeded,
        decreases outcomes.len() - k,
    {
        if !outcomes[k].succeeded {
            proof {
                assert(!(outcomes.deep_view()[k as int]).succeeded);
            }
            return Err(FetchError { identifier: outcomes[k].name.clone() });
        }
        k = k + 1;
    }
    Ok(())
}

/// One failed retrieval fails the whole batch, however many of its
/// siblings succeeded.
pub proof fn lemma_one_failure_fails_batch(outcomes: Seq<FetchOutcomeModel>, j: int)
    requires
        0 <= j < outcomes.len(),
        !outcomes[j].succeeded,
    ensures
        !all_succeeded(outcomes),
{
}

} // verus!
