//! The queries: is an address inside a subnet, inside any of several, inside
//! all of several, and is any of several addresses inside any of several subnets.
//!
//! Subnets are given as texts and read one by one, in the order given, until
//! the answer is known. A text that is no subnet ends a query with its error,
//! unless the answer was known before it was reached.

use vstd::prelude::*;

use crate::address::Address;
use crate::cidr::fault_view;
use crate::cidr::lemma_subnet_of_text;
use crate::cidr::parse_subnet;
use crate::cidr::subnet_of_text;
use crate::cidr::ParseError;
use crate::cidr::ParseFault;
use crate::subnet::Subnet;

verus! {

/// What one subnet text answers for an address: whether the subnet holds it,
/// or why the text is no subnet.
pub open spec fn in_subnet(addr: Address, text: Seq<char>) -> Result<bool, ParseFault> {
    match subnet_of_text(text) {
        Ok(subnet) => Ok(subnet.contains_spec(&addr)),
        Err(fault) => Err(fault),
    }
}

/// What one subnet text answers for several addresses: whether the subnet
/// holds any of them, or why the text is no subnet.
pub open spec fn any_in_subnet(addrs: Seq<Address>, text: Seq<char>) -> Result<bool, ParseFault> {
    match subnet_of_text(text) {
        Ok(subnet) => Ok(subnet.contains_any_spec(addrs)),
        Err(fault) => Err(fault),
    }
}

/// Whether a scan that passes over each answer `Ok(pass)` stops at `place`: the
/// answer there is another one, and every answer before it is `Ok(pass)`.
pub open spec fn stops_at(answers: Seq<Result<bool, ParseFault>>, pass: bool, place: int) -> bool {
    &&& 0 <= place < answers.len()
    &&& answers[place] != Ok::<bool, ParseFault>(pass)
    &&& forall|j: int| 0 <= j < place ==> answers[j] == Ok::<bool, ParseFault>(pass)
}

/// The outcome of going through `answers` in order and passing over each
/// `Ok(pass)`: the first other answer, or `Ok(pass)` if there is none.
pub open spec fn scan(answers: Seq<Result<bool, ParseFault>>, pass: bool) -> Result<
    bool,
    ParseFault,
> {
    if exists|place: int| stops_at(answers, pass, place) {
        answers[choose|place: int| stops_at(answers, pass, place)]
    } else {
        Ok(pass)
    }
}

/// The characters of each text of a list.
pub open spec fn texts_of(subnets: Seq<&str>) -> Seq<Seq<char>> {
    subnets.map_values(|subnet: &str| subnet@)
}

/// Whether any of the subnets holds the address. The scan stops at the first
/// subnet that holds it, or at the first text that is no subnet.
pub open spec fn in_any_subnet(addr: Address, texts: Seq<Seq<char>>) -> Result<bool, ParseFault> {
    scan(texts.map_values(|text: Seq<char>| in_subnet(addr, text)), false)
}

/// Whether all of the subnets hold the address. The scan stops at the first
/// subnet that does not hold it, or at the first text that is no subnet.
pub open spec fn in_all_subnets(addr: Address, texts: Seq<Seq<char>>) -> Result<bool, ParseFault> {
    scan(texts.map_values(|text: Seq<char>| in_subnet(addr, text)), true)
}

/// Whether any of the subnets holds any of the addresses. The scan stops at
/// the first subnet that holds one, or at the first text that is no subnet.
pub open spec fn any_in_any_subnet(addrs: Seq<Address>, texts: Seq<Seq<char>>) -> Result<
    bool,
    ParseFault,
> {
    scan(texts.map_values(|text: Seq<char>| any_in_subnet(addrs, text)), false)
}

/// Tests whether `addr` lies in the subnet that `subnet` stands for.
pub fn addr_in_subnet(addr: &Address, subnet: &str) -> (inside: Result<bool, ParseError>)
    ensures
        fault_view(inside) == in_subnet(*addr, subnet@),
        inside matches Err(error) ==> error.text@ == subnet@,
{
    match parse_subnet(subnet) {
        Ok(parsed) => Ok(parsed.contains(addr)),
        Err(error) => Err(error),
    }
}

/// Tests whether `addr` lies in any of `subnets`. Over no subnets the answer is `false`.
pub fn addr_in_any_subnet(addr: &Address, subnets: &[&str]) -> (inside: Result<bool, ParseError>)
    ensures
        fault_view(inside) == in_any_subnet(*addr, texts_of(subnets@)),
        subnets@.len() == 0 ==> inside == Ok::<bool, ParseError>(false),
        inside matches Err(error) ==> exists|i: int|
            0 <= i < subnets@.len() && error.text@ == subnets@[i]@,
{
    let ghost answers = texts_of(subnets@).map_values(|text: Seq<char>| in_subnet(*addr, text));
    let mut i: usize = 0;
    while i < subnets.len()
        invariant
            i <= subnets.len(),
            answers == texts_of(subnets@).map_values(|text: Seq<char>| in_subnet(*addr, text)),
            forall|j: int| 0 <= j < i ==> answers[j] == Ok::<bool, ParseFault>(false),
        decreases subnets.len() - i,
    {
        let answer: Result<bool, ParseError> = addr_in_subnet(addr, subnets[i]);
        assert(fault_view(answer) == answers[i as int]);
        match answer {
            Ok(false) => {},
            _ => {
                proof {
                    lemma_scan_stops(answers, false, i as int);
                }
                return answer;
            },
        }
        i += 1;
    }
    proof {
        lemma_scan_passes(answers, false);
    }
    Ok(false)
}

/// Tests whether `addr` lies in all of `subnets`. Over no subnets the answer is
/// `true`. A text that is no subnet is not passed over: it ends the query with
/// its error, as in the other queries, unless a subnet before it already
/// settled the answer as `false`.
pub fn addr_in_all_subnets(addr: &Address, subnets: &[&str]) -> (inside: Result<bool, ParseError>)
    ensures
        fault_view(inside) == in_all_subnets(*addr, texts_of(subnets@)),
        subnets@.len() == 0 ==> inside == Ok::<bool, ParseError>(true),
        inside matches Err(error) ==> exists|i: int|
            0 <= i < subnets@.len() && error.text@ == subnets@[i]@,
{
    let ghost answers = texts_of(subnets@).map_values(|text: Seq<char>| in_subnet(*addr, text));
    let mut i: usize = 0;
    while i < subnets.len()
        invariant
            i <= subnets.len(),
            answers == texts_of(subnets@).map_values(|text: Seq<char>| in_subnet(*addr, text)),
            forall|j: int| 0 <= j < i ==> answers[j] == Ok::<bool, ParseFault>(true),
        decreases subnets.len() - i,
    {
        let answer: Result<bool, ParseError> = addr_in_subnet(addr, subnets[i]);
        assert(fault_view(answer) == answers[i as int]);
        match answer {
            Ok(true) => {},
            _ => {
                proof {
                    lemma_scan_stops(answers, true, i as int);
                }
                return answer;
            },
        }
        i += 1;
    }
    proof {
        lemma_scan_passes(answers, true);
    }
    Ok(true)
}

/// Tests whether any of `addrs` lies in any of `subnets`. Each subnet is read
/// once and then tried on the addresses in order.
pub fn any_addr_in_any_subnet(addrs: &Vec<Address>, subnets: &[&str]) -> (inside: Result<
    bool,
    ParseError,
>)
    ensures
        fault_view(inside) == any_in_any_subnet(addrs@, texts_of(subnets@)),
        subnets@.len() == 0 ==> inside == Ok::<bool, ParseError>(false),
        inside matches Err(error) ==> exists|i: int|
            0 <= i < subnets@.len() && error.text@ == subnets@[i]@,
{
    let ghost answers = texts_of(subnets@).map_values(
        |text: Seq<char>| any_in_subnet(addrs@, text),
    );
    let mut i: usize = 0;
    while i < subnets.len()
        invariant
            i <= subnets.len(),
            answers == texts_of(subnets@).map_values(
                |text: Seq<char>| any_in_subnet(addrs@, text),
            ),
            forall|j: int| 0 <= j < i ==> answers[j] == Ok::<bool, ParseFault>(false),
        decreases subnets.len() - i,
    {
        let answer: Result<bool, ParseError> = match parse_subnet(subnets[i]) {
            Ok(subnet) => Ok(subnet.contains_any(addrs.as_slice())),
            Err(error) => Err(error),
        };
        assert(fault_view(answer) == answers[i as int]);
        match answer {
            Ok(false) => {},
            _ => {
                proof {
                    lemma_scan_stops(answers, false, i as int);
                }
                return answer;
            },
        }
        i += 1;
    }
    proof {
        lemma_scan_passes(answers, false);
    }
    Ok(false)
}

/// A scan that stops at some place yields the answer found there.
pub proof fn lemma_scan_stops(answers: Seq<Result<bool, ParseFault>>, pass: bool, place: int)
    requires
        stops_at(answers, pass, place),
    ensures
        scan(answers, pass) == answers[place],
{
    let chosen = choose|place: int| stops_at(answers, pass, place);
    assert(stops_at(answers, pass, chosen));
    assert(chosen == place);
}

/// A scan that meets no answer but `Ok(pass)` yields `Ok(pass)`.
pub proof fn lemma_scan_passes(answers: Seq<Result<bool, ParseFault>>, pass: bool)
    requires
        forall|i: int| 0 <= i < answers.len() ==> answers[i] == Ok::<bool, ParseFault>(pass),
    ensures
        scan(answers, pass) == Ok::<bool, ParseFault>(pass),
{
}

/// A scan yields `Ok(pass)` exactly when every answer is `Ok(pass)`. It yields
/// another answer exactly when it stops, and then the answer at which it stops.
pub proof fn lemma_scan_outcome(answers: Seq<Result<bool, ParseFault>>, pass: bool)
    ensures
        scan(answers, pass) == Ok::<bool, ParseFault>(pass) <==> forall|i: int|
            0 <= i < answers.len() ==> answers[i] == Ok::<bool, ParseFault>(pass),
        scan(answers, pass) != Ok::<bool, ParseFault>(pass) <==> exists|place: int|
            stops_at(answers, pass, place) && answers[place] == scan(answers, pass),
{
    if exists|place: int| stops_at(answers, pass, place) {
        let place = choose|place: int| stops_at(answers, pass, place);
        assert(answers[place] == scan(answers, pass));
    } else {
        assert forall|i: int| 0 <= i < answers.len() implies answers[i] == Ok::<bool, ParseFault>(
            pass,
        ) by {
            if answers[i] != Ok::<bool, ParseFault>(pass) {
                lemma_scan_stops_by(answers, pass, i);
            }
        }
    }
}

/// Two lists that hold the same answers, in whatever order and number, scan
/// alike: where both scans end in a verdict it is the same verdict, and where
/// no answer is an error both do.
pub proof fn lemma_scan_order(
    answers: Seq<Result<bool, ParseFault>>,
    other: Seq<Result<bool, ParseFault>>,
    pass: bool,
)
    requires
        forall|i: int| 0 <= i < answers.len() ==> other.contains(#[trigger] answers[i]),
        forall|i: int| 0 <= i < other.len() ==> answers.contains(#[trigger] other[i]),
    ensures
        scan(answers, pass) is Ok && scan(other, pass) is Ok ==> scan(answers, pass) == scan(
            other,
            pass,
        ),
        (forall|i: int| 0 <= i < answers.len() ==> answers[i] is Ok) ==> scan(answers, pass) is Ok
            && scan(other, pass) is Ok,
{
    lemma_scan_outcome(answers, pass);
    lemma_scan_outcome(other, pass);
    let passed = Ok::<bool, ParseFault>(pass);
    if scan(answers, pass) == passed {
        assert forall|i: int| 0 <= i < other.len() implies other[i] == passed by {
            let j = choose|j: int| 0 <= j < answers.len() && answers[j] == other[i];
            assert(answers[j] == passed);
        }
    }
    if scan(other, pass) == passed {
        assert forall|i: int| 0 <= i < answers.len() implies answers[i] == passed by {
            let j = choose|j: int| 0 <= j < other.len() && other[j] == answers[i];
            assert(other[j] == passed);
        }
    }
    match (scan(answers, pass), scan(other, pass)) {
        (Ok(verdict), Ok(other_verdict)) => {
            if verdict != other_verdict {
                assert(verdict == pass || other_verdict == pass);
            }
        },
        _ => {},
    }
    if forall|i: int| 0 <= i < answers.len() ==> answers[i] is Ok {
        assert forall|i: int| 0 <= i < other.len() implies other[i] is Ok by {
            let j = choose|j: int| 0 <= j < answers.len() && answers[j] == other[i];
            assert(answers[j] is Ok);
        }
    }
}

/// The answer to the any-subnet query is `false` exactly when every text is a
/// subnet and none of them holds the address.
pub proof fn lemma_in_any_subnet_false(addr: Address, texts: Seq<Seq<char>>)
    ensures
        in_any_subnet(addr, texts) == Ok::<bool, ParseFault>(false) <==> forall|i: int|
            0 <= i < texts.len() ==> in_subnet(addr, #[trigger] texts[i]) == Ok::<bool, ParseFault>(
                false,
            ),
{
    let answers = texts.map_values(|text: Seq<char>| in_subnet(addr, text));
    let passed = Ok::<bool, ParseFault>(false);
    lemma_scan_outcome(answers, false);
    if in_any_subnet(addr, texts) == passed {
        assert forall|i: int| 0 <= i < texts.len() implies in_subnet(addr, #[trigger] texts[i])
            == passed by {
            assert(answers[i] == passed);
        }
    }
    if forall|i: int| 0 <= i < texts.len() ==> in_subnet(addr, #[trigger] texts[i]) == passed {
        assert forall|i: int| 0 <= i < answers.len() implies answers[i] == passed by {
            assert(in_subnet(addr, texts[i]) == passed);
        }
    }
}

/// The answer to the all-subnets query is `true` exactly when every text is a
/// subnet and each of them holds the address.
pub proof fn lemma_in_all_subnets_true(addr: Address, texts: Seq<Seq<char>>)
    ensures
        in_all_subnets(addr, texts) == Ok::<bool, ParseFault>(true) <==> forall|i: int|
            0 <= i < texts.len() ==> in_subnet(addr, #[trigger] texts[i]) == Ok::<bool, ParseFault>(
                true,
            ),
{
    let answers = texts.map_values(|text: Seq<char>| in_subnet(addr, text));
    let passed = Ok::<bool, ParseFault>(true);
    lemma_scan_outcome(answers, true);
    if in_all_subnets(addr, texts) == passed {
        assert forall|i: int| 0 <= i < texts.len() implies in_subnet(addr, #[trigger] texts[i])
            == passed by {
            assert(answers[i] == passed);
        }
    }
    if forall|i: int| 0 <= i < texts.len() ==> in_subnet(addr, #[trigger] texts[i]) == passed {
        assert forall|i: int| 0 <= i < answers.len() implies answers[i] == passed by {
            assert(in_subnet(addr, texts[i]) == passed);
        }
    }
}

/// The order of the subnets does not change the verdict of the any-subnet
/// query. Two orders that both end in a verdict end in the same one, and where
/// every text is a subnet every order ends in a verdict. (An error depends on
/// the order: it is that of the first text that is no subnet, and it is
/// reached only if no subnet before that text holds the address.)
pub proof fn lemma_in_any_subnet_order(
    addr: Address,
    texts: Seq<Seq<char>>,
    other: Seq<Seq<char>>,
)
    requires
        texts.to_multiset() == other.to_multiset(),
    ensures
        in_any_subnet(addr, texts) is Ok && in_any_subnet(addr, other) is Ok ==> in_any_subnet(
            addr,
            texts,
        ) == in_any_subnet(addr, other),
        (forall|i: int| 0 <= i < texts.len() ==> subnet_of_text(#[trigger] texts[i]) is Ok)
            ==> in_any_subnet(addr, texts) is Ok && in_any_subnet(addr, other) is Ok,
{
    let answers = texts.map_values(|text: Seq<char>| in_subnet(addr, text));
    let others = other.map_values(|text: Seq<char>| in_subnet(addr, text));
    lemma_rearranged_holds(texts, other);
    lemma_answers_rearranged(texts, other, answers, others);
    lemma_scan_order(answers, others, false);
    if forall|i: int| 0 <= i < texts.len() ==> subnet_of_text(#[trigger] texts[i]) is Ok {
        assert forall|i: int| 0 <= i < answers.len() implies answers[i] is Ok by {
            assert(subnet_of_text(texts[i]) is Ok);
        }
    }
}

/// The order of the subnets does not change the verdict of the all-subnets
/// query. Two orders that both end in a verdict end in the same one, and where
/// every text is a subnet every order ends in a verdict. (An error depends on
/// the order: it is that of the first text that is no subnet, and it is
/// reached only if every subnet before that text holds the address.)
pub proof fn lemma_in_all_subnets_order(
    addr: Address,
    texts: Seq<Seq<char>>,
    other: Seq<Seq<char>>,
)
    requires
        texts.to_multiset() == other.to_multiset(),
    ensures
        in_all_subnets(addr, texts) is Ok && in_all_subnets(addr, other) is Ok ==> in_all_subnets(
            addr,
            texts,
        ) == in_all_subnets(addr, other),
        (forall|i: int| 0 <= i < texts.len() ==> subnet_of_text(#[trigger] texts[i]) is Ok)
            ==> in_all_subnets(addr, texts) is Ok && in_all_subnets(addr, other) is Ok,
{
    let answers = texts.map_values(|text: Seq<char>| in_subnet(addr, text));
    let others = other.map_values(|text: Seq<char>| in_subnet(addr, text));
    lemma_rearranged_holds(texts, other);
    lemma_answers_rearranged(texts, other, answers, others);
    lemma_scan_order(answers, others, true);
    if forall|i: int| 0 <= i < texts.len() ==> subnet_of_text(#[trigger] texts[i]) is Ok {
        assert forall|i: int| 0 <= i < answers.len() implies answers[i] is Ok by {
            assert(subnet_of_text(texts[i]) is Ok);
        }
    }
}

/// Neither the order of the subnets nor that of the addresses changes the
/// verdict of the query for any address in any subnet. Two orders that both
/// end in a verdict end in the same one, and where every text is a subnet
/// every order ends in a verdict.
pub proof fn lemma_any_in_any_subnet_order(
    addrs: Seq<Address>,
    other_addrs: Seq<Address>,
    texts: Seq<Seq<char>>,
    other: Seq<Seq<char>>,
)
    requires
        addrs.to_multiset() == other_addrs.to_multiset(),
        texts.to_multiset() == other.to_multiset(),
    ensures
        any_in_any_subnet(addrs, texts) is Ok && any_in_any_subnet(other_addrs, other) is Ok
            ==> any_in_any_subnet(addrs, texts) == any_in_any_subnet(other_addrs, other),
        (forall|i: int| 0 <= i < texts.len() ==> subnet_of_text(#[trigger] texts[i]) is Ok)
            ==> any_in_any_subnet(addrs, texts) is Ok
            && any_in_any_subnet(other_addrs, other) is Ok,
{
    let answers = texts.map_values(|text: Seq<char>| any_in_subnet(addrs, text));
    let others = other.map_values(|text: Seq<char>| any_in_subnet(other_addrs, text));
    lemma_rearranged_holds(addrs, other_addrs);
    assert forall|subnet: Subnet|
        subnet.contains_any_spec(addrs) == subnet.contains_any_spec(other_addrs) by {
        if subnet.contains_any_spec(addrs) {
            let k = choose|k: int| 0 <= k < addrs.len() && subnet.contains_spec(&addrs[k]);
            let j = choose|j: int| 0 <= j < other_addrs.len() && other_addrs[j] == addrs[k];
            assert(subnet.contains_spec(&other_addrs[j]));
        }
        if subnet.contains_any_spec(other_addrs) {
            let k = choose|k: int|
                0 <= k < other_addrs.len() && subnet.contains_spec(&other_addrs[k]);
            let j = choose|j: int| 0 <= j < addrs.len() && addrs[j] == other_addrs[k];
            assert(subnet.contains_spec(&addrs[j]));
        }
    }
    assert(others =~= other.map_values(|text: Seq<char>| any_in_subnet(addrs, text)));
    lemma_rearranged_holds(texts, other);
    lemma_answers_rearranged(texts, other, answers, others);
    lemma_scan_order(answers, others, false);
    if forall|i: int| 0 <= i < texts.len() ==> subnet_of_text(#[trigger] texts[i]) is Ok {
        assert forall|i: int| 0 <= i < answers.len() implies answers[i] is Ok by {
            assert(subnet_of_text(texts[i]) is Ok);
        }
    }
}

/// The query for any of several addresses, asked of one address, is the
/// any-subnet query for that address.
pub proof fn lemma_any_of_one_address(addr: Address, texts: Seq<Seq<char>>)
    ensures
        any_in_any_subnet(seq![addr], texts) == in_any_subnet(addr, texts),
{
    assert forall|subnet: Subnet| subnet.contains_any_spec(seq![addr]) == subnet.contains_spec(
        &addr,
    ) by {
        if subnet.contains_spec(&addr) {
            assert(subnet.contains_spec(&seq![addr][0]));
        }
    }
    assert(texts.map_values(|text: Seq<char>| any_in_subnet(seq![addr], text))
        =~= texts.map_values(|text: Seq<char>| in_subnet(addr, text)));
}

/// The queries over several subnets, asked of one subnet, are the query for
/// one subnet.
pub proof fn lemma_one_subnet(addr: Address, text: Seq<char>)
    ensures
        in_any_subnet(addr, seq![text]) == in_subnet(addr, text),
        in_all_subnets(addr, seq![text]) == in_subnet(addr, text),
{
    let answers = seq![text].map_values(|text: Seq<char>| in_subnet(addr, text));
    assert(answers[0] == in_subnet(addr, text));
    if in_subnet(addr, text) == Ok::<bool, ParseFault>(false) {
        lemma_scan_passes(answers, false);
    } else {
        lemma_scan_stops(answers, false, 0);
    }
    if in_subnet(addr, text) == Ok::<bool, ParseFault>(true) {
        lemma_scan_passes(answers, true);
    } else {
        lemma_scan_stops(answers, true, 0);
    }
}

/// An error that ends a query over several subnets is the error of one of
/// the texts: it names that text, and reading that text alone gives it.
pub proof fn lemma_fault_is_of_a_text(addr: Address, addrs: Seq<Address>, texts: Seq<Seq<char>>)
    ensures
        in_any_subnet(addr, texts) matches Err(fault) ==> texts.contains(fault.text)
            && subnet_of_text(fault.text) == Err::<Subnet, ParseFault>(fault),
        in_all_subnets(addr, texts) matches Err(fault) ==> texts.contains(fault.text)
            && subnet_of_text(fault.text) == Err::<Subnet, ParseFault>(fault),
        any_in_any_subnet(addrs, texts) matches Err(fault) ==> texts.contains(fault.text)
            && subnet_of_text(fault.text) == Err::<Subnet, ParseFault>(fault),
{
    let answers = texts.map_values(|text: Seq<char>| in_subnet(addr, text));
    let answers_any = texts.map_values(|text: Seq<char>| any_in_subnet(addrs, text));
    lemma_scan_outcome(answers, false);
    lemma_scan_outcome(answers, true);
    lemma_scan_outcome(answers_any, false);
    if in_any_subnet(addr, texts) is Err {
        let i = choose|i: int|
            stops_at(answers, false, i) && answers[i] == in_any_subnet(addr, texts);
        lemma_subnet_of_text(texts[i]);
    }
    if in_all_subnets(addr, texts) is Err {
        let i = choose|i: int|
            stops_at(answers, true, i) && answers[i] == in_all_subnets(addr, texts);
        lemma_subnet_of_text(texts[i]);
    }
    if any_in_any_subnet(addrs, texts) is Err {
        let i = choose|i: int|
            stops_at(answers_any, false, i) && answers_any[i] == any_in_any_subnet(addrs, texts);
        lemma_subnet_of_text(texts[i]);
    }
}

/// An answer other than `Ok(pass)` makes the scan stop, there or earlier.
proof fn lemma_scan_stops_by(answers: Seq<Result<bool, ParseFault>>, pass: bool, place: int)
    requires
        0 <= place < answers.len(),
        answers[place] != Ok::<bool, ParseFault>(pass),
    ensures
        exists|first: int| 0 <= first <= place && stops_at(answers, pass, first),
    decreases place,
{
    if forall|j: int| 0 <= j < place ==> answers[j] == Ok::<bool, ParseFault>(pass) {
        assert(stops_at(answers, pass, place));
    } else {
        let earlier = choose|j: int| 0 <= j < place && answers[j] != Ok::<bool, ParseFault>(pass);
        lemma_scan_stops_by(answers, pass, earlier);
    }
}

/// Each entry of a list stands somewhere in every rearrangement of the list.
proof fn lemma_rearranged_holds<T>(list: Seq<T>, other: Seq<T>)
    requires
        list.to_multiset() == other.to_multiset(),
    ensures
        forall|i: int| 0 <= i < list.len() ==> other.contains(#[trigger] list[i]),
        forall|i: int| 0 <= i < other.len() ==> list.contains(#[trigger] other[i]),
{
    list.to_multiset_ensures();
    other.to_multiset_ensures();
    assert forall|i: int| 0 <= i < list.len() implies other.contains(#[trigger] list[i]) by {
        assert(list.contains(list[i]));
        assert(list.to_multiset().count(list[i]) > 0);
        assert(other.to_multiset().count(list[i]) > 0);
    }
    assert forall|i: int| 0 <= i < other.len() implies list.contains(#[trigger] other[i]) by {
        assert(other.contains(other[i]));
        assert(other.to_multiset().count(other[i]) > 0);
        assert(list.to_multiset().count(other[i]) > 0);
    }
}

/// Answers that are given text by text by one rule hold the same entries for
/// two lists of texts that hold the same entries.
proof fn lemma_answers_rearranged(
    texts: Seq<Seq<char>>,
    other: Seq<Seq<char>>,
    answers: Seq<Result<bool, ParseFault>>,
    others: Seq<Result<bool, ParseFault>>,
)
    requires
        forall|i: int| 0 <= i < texts.len() ==> other.contains(#[trigger] texts[i]),
        forall|i: int| 0 <= i < other.len() ==> texts.contains(#[trigger] other[i]),
        exists|rule: spec_fn(Seq<char>) -> Result<bool, ParseFault>|
            answers == texts.map_values(rule) && others == other.map_values(rule),
    ensures
        forall|i: int| 0 <= i < answers.len() ==> others.contains(#[trigger] answers[i]),
        forall|i: int| 0 <= i < others.len() ==> answers.contains(#[trigger] others[i]),
{
    let rule = choose|rule: spec_fn(Seq<char>) -> Result<bool, ParseFault>|
        answers == texts.map_values(rule) && others == other.map_values(rule);
    assert forall|i: int| 0 <= i < answers.len() implies others.contains(#[trigger] answers[i]) by {
        assert(other.contains(texts[i]));
        let j = choose|j: int| 0 <= j < other.len() && other[j] == texts[i];
        assert(others[j] == rule(other[j]));
    }
    assert forall|i: int| 0 <= i < others.len() implies answers.contains(#[trigger] others[i]) by {
        assert(texts.contains(other[i]));
        let j = choose|j: int| 0 <= j < texts.len() && texts[j] == other[i];
        assert(answers[j] == rule(texts[j]));
    }
}

} // verus!
