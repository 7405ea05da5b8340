//! Boolean queries: words, alternatives separated by `|`, and the words of
//! one alternative taken together.

use crate::token::{texts, to_chars, tokenize, tokenize_chars, tokens_of};
use vstd::prelude::*;

verus! {

/// A boolean query over words.
pub enum Query {
    /// Lines that hold the word.
    Word(String),
    /// Lines that one of the queries matches.
    Any(Vec<Query>),
    /// Lines that all of the queries match.
    All(Vec<Query>),
}

/// What a query says, apart from how it is stored.
pub ghost enum QueryView {
    Word(Seq<char>),
    Any(Seq<QueryView>),
    All(Seq<QueryView>),
}

impl View for Query {
    type V = QueryView;

    open spec fn view(&self) -> QueryView
        decreases self,
    {
        match self {
            Query::Word(word) => QueryView::Word(word@),
            Query::Any(queries) => QueryView::Any(
                Seq::new(
                    queries@.len(),
                    |i: int|
                        if 0 <= i < queries@.len() {
                            queries@[i]@
                        } else {
                            QueryView::Word(Seq::empty())
                        },
                ),
            ),
            Query::All(queries) => QueryView::All(
                Seq::new(
                    queries@.len(),
                    |i: int|
                        if 0 <= i < queries@.len() {
                            queries@[i]@
                        } else {
                            QueryView::Word(Seq::empty())
                        },
                ),
            ),
        }
    }
}

/// What each of `queries` says.
pub open spec fn views(queries: Seq<Query>) -> Seq<QueryView> {
    Seq::new(queries.len(), |i: int| queries[i]@)
}

/// How queries combine: as alternatives or as conditions that hold
/// together.
#[derive(Clone, Copy, PartialEq, Eq, Structural)]
pub enum Combine {
    Any,
    All,
}

/// The combination of `children`: nothing for none, the child itself for
/// one, a node over them for more.
pub open spec fn combined(children: Seq<QueryView>, how: Combine) -> Option<QueryView> {
    if children.len() == 0 {
        None
    } else if children.len() == 1 {
        Some(children[0])
    } else {
        Some(
            match how {
                Combine::Any => QueryView::Any(children),
                Combine::All => QueryView::All(children),
            },
        )
    }
}

/// The position of the first `|` of `s` at or after `i`, or the length of
/// `s` where there is none.
pub open spec fn first_bar(s: Seq<char>, i: int) -> int
    decreases s.len() - i,
{
    if i < 0 || i >= s.len() {
        s.len() as int
    } else if s[i] == '|' {
        i
    } else {
        first_bar(s, i + 1)
    }
}

/// The pieces of `s` between its `|` characters; there is always at least
/// one.
pub open spec fn split_bar(s: Seq<char>) -> Seq<Seq<char>>
    decreases s.len(),
{
    let k = first_bar(s, 0);
    if 0 <= k < s.len() {
        seq![s.take(k)] + split_bar(s.skip(k + 1))
    } else {
        seq![s]
    }
}

/// The word leaves of `words`.
pub open spec fn word_leaves(words: Seq<Seq<char>>) -> Seq<QueryView> {
    words.map_values(|word: Seq<char>| QueryView::Word(word))
}

/// The query of one alternative: its tokens, all of which must occur.
pub open spec fn alternative(piece: Seq<char>) -> Option<QueryView> {
    combined(word_leaves(tokens_of(piece)), Combine::All)
}

/// The queries of `pieces`, without the pieces that hold no word.
pub open spec fn alternatives(pieces: Seq<Seq<char>>) -> Seq<QueryView>
    decreases pieces.len(),
{
    if pieces.len() == 0 {
        Seq::empty()
    } else {
        match alternative(pieces.last()) {
            Some(query) => alternatives(pieces.drop_last()).push(query),
            None => alternatives(pieces.drop_last()),
        }
    }
}

/// The query that a query string denotes, or `None` where it holds no word.
pub open spec fn parse_query(s: Seq<char>) -> Option<QueryView> {
    combined(alternatives(split_bar(s)), Combine::Any)
}

/// The words of a query, in the order in which they were written.
pub open spec fn query_words(query: QueryView) -> Seq<Seq<char>>
    decreases query, 0nat,
{
    match query {
        QueryView::Word(word) => seq![word],
        QueryView::Any(children) => children_words(children),
        QueryView::All(children) => children_words(children),
    }
}

/// The words of `children`, one query after the other.
pub open spec fn children_words(children: Seq<QueryView>) -> Seq<Seq<char>>
    decreases children, 1nat,
{
    if children.len() == 0 {
        Seq::empty()
    } else {
        children_words(children.drop_last()) + query_words(children.last())
    }
}

/// The combination of `queries`: nothing for none, the query itself for
/// one, a node over them for more.
fn reduce(mut queries: Vec<Query>, how: Combine) -> (r: Option<Query>)
    ensures
        match r {
            Some(query) => combined(views(queries@), how) == Some(query@),
            None => combined(views(queries@), how).is_none(),
        },
{
    if queries.len() == 0 {
        None
    } else if queries.len() == 1 {
        queries.pop()
    } else {
        let ghost children = views(queries@);
        let query = match how {
            Combine::Any => Query::Any(queries),
            Combine::All => Query::All(queries),
        };
        proof {
            match how {
                Combine::Any => {
                    assert(query@->Any_0 =~= children);
                },
                Combine::All => {
                    assert(query@->All_0 =~= children);
                },
            }
        }
        Some(query)
    }
}

impl Query {
    /// The query that `query_str` denotes, or `None` where it holds no
    /// word.
    pub fn parse(query_str: &str) -> (r: Option<Self>)
        ensures
            match r {
                Some(query) => parse_query(query_str@) == Some(query@),
                None => parse_query(query_str@).is_none(),
            },
    {
        let chars = to_chars(query_str);
        let mut any: Vec<Query> = Vec::new();
        let mut start: usize = 0;
        let ghost mut done: Seq<Seq<char>> = Seq::empty();
        assert(chars@.skip(0) =~= chars@);
        loop
            invariant_except_break
                split_bar(chars@) == done + split_bar(chars@.skip(start as int)),
            invariant
                chars@ == query_str@,
                start <= chars@.len(),
                views(any@) == alternatives(done),
            ensures
                split_bar(chars@) == done,
            decreases chars@.len() - start,
        {
            let mut piece: Vec<char> = Vec::new();
            let mut end = start;
            let ghost rest = chars@.skip(start as int);
            while end < chars.len() && chars[end] != '|'
                invariant
                    start <= end <= chars@.len(),
                    rest == chars@.skip(start as int),
                    piece@ == chars@.subrange(start as int, end as int),
                    first_bar(rest, 0) == first_bar(rest, end - start),
                decreases chars@.len() - end,
            {
                piece.push(chars[end]);
                end = end + 1;
                assert(piece@ =~= chars@.subrange(start as int, end as int));
            }
            let mut words: Vec<Query> = Vec::new();
            let tokens = parse_words_of(&piece);
            let ghost leaves = word_leaves(tokens_of(piece@));
            let mut k: usize = 0;
            while k < tokens.len()
                invariant
                    k <= tokens@.len(),
                    texts(tokens@) == tokens_of(piece@),
                    leaves == word_leaves(tokens_of(piece@)),
                    views(words@) == leaves.take(k as int),
                decreases tokens@.len() - k,
            {
                let word = Query::with_word(tokens[k].clone());
                assert(word@ == leaves[k as int]);
                let ghost earlier = words@;
                words.push(word);
                k = k + 1;
                assert(views(words@) =~= views(earlier).push(word@));
                assert(views(words@) =~= leaves.take(k as int));
            }
            assert(leaves.take(k as int) =~= leaves);
            let ghost before = any@;
            if let Some(all) = Query::with_all(words) {
                any.push(all);
                assert(views(any@) =~= views(before).push(all@));
            }
            proof {
                assert(done.push(piece@).drop_last() =~= done);
                assert(views(any@) == alternatives(done.push(piece@)));
                if end < chars@.len() {
                    assert(rest.take(end - start) =~= piece@);
                    assert(rest.skip(end - start + 1) =~= chars@.skip(end + 1));
                    assert(done + (seq![piece@] + split_bar(chars@.skip(end + 1))) =~= done.push(
                        piece@,
                    ) + split_bar(chars@.skip(end + 1)));
                } else {
                    assert(rest =~= piece@);
                    assert(done + seq![piece@] =~= done.push(piece@));
                }
                done = done.push(piece@);
            }
            if end >= chars.len() {
                break ;
            }
            start = end + 1;
        }
        Self::with_any(any)
    }

    /// A query for one word.
    pub fn with_word(word: String) -> (query: Self)
        ensures
            query == Query::Word(word),
            query@ == QueryView::Word(word@),
    {
        Self::Word(word)
    }

    /// The query that any of `queries` satisfies: `None` for no query, the
    /// query itself for one.
    pub fn with_any(queries: Vec<Query>) -> (r: Option<Self>)
        ensures
            match r {
                Some(query) => combined(views(queries@), Combine::Any) == Some(query@),
                None => combined(views(queries@), Combine::Any).is_none(),
            },
    {
        reduce(queries, Combine::Any)
    }

    /// The query that all of `queries` satisfy together: `None` for no
    /// query, the query itself for one.
    pub fn with_all(queries: Vec<Query>) -> (r: Option<Self>)
        ensures
            match r {
                Some(query) => combined(views(queries@), Combine::All) == Some(query@),
                None => combined(views(queries@), Combine::All).is_none(),
            },
    {
        reduce(queries, Combine::All)
    }

    /// The words of the query, in the order in which they were written.
    pub fn get_words(&self) -> (words: Vec<String>)
        ensures
            texts(words@) == query_words(self@),
    {
        let mut words = Vec::new();
        self.inner_get_words(&mut words);
        assert(texts(words@) =~= query_words(self@));
        words
    }

    /// Appends the words of the query to `words`.
    fn inner_get_words(&self, words: &mut Vec<String>)
        ensures
            texts(final(words)@) == texts(old(words)@) + query_words(self@),
        decreases self,
    {
        match self {
            Self::Word(word) => {
                words.push(word.clone());
                assert(texts(words@) =~= texts(old(words)@) + query_words(self@));
            },
            Self::Any(queries) | Self::All(queries) => {
                let ghost children = views(queries@);
                assert(self@ is Any ==> self@->Any_0 =~= children);
                assert(self@ is All ==> self@->All_0 =~= children);
                let mut i: usize = 0;
                assert(children.take(0) =~= Seq::<QueryView>::empty());
                while i < queries.len()
                    invariant
                        i <= queries@.len(),
                        children == views(queries@),
                        texts(words@) == texts(old(words)@) + children_words(
                            children.take(i as int),
                        ),
                        forall|j: int|
                            0 <= j < queries@.len() ==> decreases_to!(self => #[trigger] queries@[j]),
                    decreases queries@.len() - i,
                {
                    queries[i].inner_get_words(words);
                    proof {
                        assert(children.take(i + 1).drop_last() =~= children.take(i as int));
                        assert(texts(words@) =~= texts(old(words)@) + children_words(
                            children.take(i + 1),
                        ));
                    }
                    i = i + 1;
                }
                assert(children.take(i as int) =~= children);
            },
        }
    }
}

/// The position after the first of `words` at or after `from` that starts
/// with `text`, or `None` where there is none.
pub open spec fn next_match(words: Seq<Seq<char>>, text: Seq<char>, from: int) -> Option<int>
    decreases words.len() - from,
{
    if from < 0 || from >= words.len() {
        None
    } else if text.is_prefix_of(words[from]) {
        Some(from + 1)
    } else {
        next_match(words, text, from + 1)
    }
}

/// Where the words of `query` end in `words` when they are sought in the
/// order in which the query names them, from position `from` on; `None`
/// where they do not occur in that order. A word of the query is found at
/// the first word that starts with it. Conditions that hold together are
/// sought one behind the other, and of alternatives the first that is found
/// counts.
pub open spec fn order_end(query: QueryView, words: Seq<Seq<char>>, from: int) -> Option<int>
    decreases query, 0nat,
{
    match query {
        QueryView::Word(word) => next_match(words, word, from),
        QueryView::All(children) => all_end(children, words, from),
        QueryView::Any(children) => any_end(children, words, from),
    }
}

/// Where `children` end in `words` when they are sought one behind the
/// other from position `from` on.
pub open spec fn all_end(children: Seq<QueryView>, words: Seq<Seq<char>>, from: int) -> Option<
    int,
>
    decreases children, 1nat,
{
    if children.len() == 0 {
        Some(from)
    } else {
        match all_end(children.drop_last(), words, from) {
            Some(mid) => order_end(children.last(), words, mid),
            None => None,
        }
    }
}

/// Where the first of `children` that is found in `words` from position
/// `from` on ends.
pub open spec fn any_end(children: Seq<QueryView>, words: Seq<Seq<char>>, from: int) -> Option<
    int,
>
    decreases children, 1nat,
{
    if children.len() == 0 {
        None
    } else {
        match any_end(children.drop_last(), words, from) {
            Some(end) => Some(end),
            None => order_end(children.last(), words, from),
        }
    }
}

impl Query {
    /// Whether the words of the query occur in `words`, the words of a
    /// line, in the order in which the query names them.
    pub fn check_words_order(&self, words: &Vec<String>) -> (r: bool)
        ensures
            r == order_end(self@, texts(words@), 0).is_some(),
    {
        self.find_in_order(words, 0).is_some()
    }

    /// Where the words of the query end in `words` when they are sought in
    /// order from position `from` on.
    fn find_in_order(&self, words: &Vec<String>, from: usize) -> (r: Option<usize>)
        requires
            from <= words@.len(),
        ensures
            match r {
                Some(end) => order_end(self@, texts(words@), from as int) == Some(end as int)
                    && from <= end <= words@.len(),
                None => order_end(self@, texts(words@), from as int).is_none(),
            },
        decreases self,
    {
        let ghost lines = texts(words@);
        match self {
            Self::Word(word) => {
                let mut at = from;
                while at < words.len()
                    invariant
                        from <= at <= words@.len(),
                        lines == texts(words@),
                        self@ == QueryView::Word(word@),
                        next_match(lines, word@, from as int) == next_match(
                            lines,
                            word@,
                            at as int,
                        ),
                    decreases words@.len() - at,
                {
                    proof {
                        crate::index::words_section::lemma_prefix_of_chars(word@, words@[at as int]@);
                        assert(lines[at as int] == words@[at as int]@);
                    }
                    if crate::index::lex::bytes_starts_with(
                        words[at].as_str().as_bytes(),
                        word.as_str().as_bytes(),
                    ) {
                        return Some(at + 1);
                    }
                    at = at + 1;
                }
                None
            },
            Self::All(queries) => {
                let ghost children = views(queries@);
                assert(self@->All_0 =~= children);
                let mut at = from;
                let mut i: usize = 0;
                assert(children.take(0) =~= Seq::<QueryView>::empty());
                while i < queries.len()
                    invariant
                        i <= queries@.len(),
                        from <= at <= words@.len(),
                        lines == texts(words@),
                        children == views(queries@),
                        self@ == QueryView::All(children),
                        all_end(children.take(i as int), lines, from as int) == Some(at as int),
                        forall|j: int|
                            0 <= j < queries@.len() ==> decreases_to!(self => #[trigger] queries@[j]),
                    decreases queries@.len() - i,
                {
                    assert(children.take(i + 1).drop_last() =~= children.take(i as int));
                    match queries[i].find_in_order(words, at) {
                        Some(end) => {
                            at = end;
                        },
                        None => {
                            proof {
                                lemma_all_end_fails(children, lines, from as int, i + 1);
                            }
                            return None;
                        },
                    }
                    i = i + 1;
                }
                assert(children.take(i as int) =~= children);
                Some(at)
            },
            Self::Any(queries) => {
                let ghost children = views(queries@);
                assert(self@->Any_0 =~= children);
                let mut i: usize = 0;
                assert(children.take(0) =~= Seq::<QueryView>::empty());
                while i < queries.len()
                    invariant
                        i <= queries@.len(),
                        from <= words@.len(),
                        lines == texts(words@),
                        children == views(queries@),
                        self@ == QueryView::Any(children),
                        any_end(children.take(i as int), lines, from as int).is_none(),
                        forall|j: int|
                            0 <= j < queries@.len() ==> decreases_to!(self => #[trigger] queries@[j]),
                    decreases queries@.len() - i,
                {
                    assert(children.take(i + 1).drop_last() =~= children.take(i as int));
                    if let Some(end) = queries[i].find_in_order(words, from) {
                        proof {
                            lemma_any_end_stays(children, lines, from as int, i + 1);
                        }
                        return Some(end);
                    }
                    i = i + 1;
                }
                assert(children.take(i as int) =~= children);
                None
            },
        }
    }
}

/// Where the first `n` of `children` are not found one behind the other,
/// all of them are not.
pub proof fn lemma_all_end_fails(
    children: Seq<QueryView>,
    words: Seq<Seq<char>>,
    from: int,
    n: int,
)
    requires
        0 <= n <= children.len(),
        all_end(children.take(n), words, from).is_none(),
    ensures
        all_end(children, words, from).is_none(),
    decreases children.len() - n,
{
    if n < children.len() {
        assert(children.take(n + 1).drop_last() =~= children.take(n));
        lemma_all_end_fails(children, words, from, n + 1);
    } else {
        assert(children.take(n) =~= children);
    }
}

/// Where one of the first `n` of `children` is found, it is the one that is
/// found among all of them.
pub proof fn lemma_any_end_stays(
    children: Seq<QueryView>,
    words: Seq<Seq<char>>,
    from: int,
    n: int,
)
    requires
        0 <= n <= children.len(),
        any_end(children.take(n), words, from).is_some(),
    ensures
        any_end(children, words, from) == any_end(children.take(n), words, from),
    decreases children.len() - n,
{
    if n < children.len() {
        assert(children.take(n + 1).drop_last() =~= children.take(n));
        lemma_any_end_stays(children, words, from, n + 1);
    } else {
        assert(children.take(n) =~= children);
    }
}

/// The normalized words of a piece of a query, in order.
fn parse_words_of(piece: &Vec<char>) -> (words: Vec<String>)
    ensures
        texts(words@) == tokens_of(piece@),
{
    tokenize_chars(piece)
}

/// The normalized words of `line`, in order: the tokens that the indexer
/// finds in the same text.
pub fn parse_words(line: &str) -> (words: Vec<String>)
    ensures
        texts(words@) == tokens_of(line@),
{
    tokenize(line)
}

} // verus!
