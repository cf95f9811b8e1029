//! Which function the names of calls stand for, and how many arguments each takes.
use vstd::prelude::*;
use crate::call::{function_of, Function};
use crate::text::normalized;

verus! {

/// Whether a text is made of capital ASCII letters and digits.
pub open spec fn is_plain_name(name: Seq<char>) -> bool {
    forall|i: int| 0 <= i < name.len() ==> 'A' <= #[trigger] name[i] <= 'Z' || '0' <= name[i] <= '9'
}

/// A name of capital letters and digits is looked up as it is.
pub proof fn lemma_plain_name(name: Seq<char>)
    requires
        is_plain_name(name),
    ensures
        normalized(name) == name,
    decreases name.len(),
{
    if name.len() > 0 {
        let rest = name.drop_last();
        assert forall|i: int| 0 <= i < rest.len() implies 'A' <= #[trigger] rest[i] <= 'Z' || '0' <= rest[i] <= '9' by {
            assert(rest[i] == name[i]);
        }
        lemma_plain_name(rest);
        assert(name.last() == name[name.len() - 1]);
        assert(name =~= rest.push(name.last()));
        assert(normalized(name) =~= name);
    }
}

/// Names are looked up part by part, and underscores in them do not matter.
pub proof fn lemma_name_parts(first: Seq<char>, second: Seq<char>)
    ensures
        normalized(first + second) == normalized(first) + normalized(second),
        normalized(first.push('_')) == normalized(first),
        normalized(seq!['_'] + second) == normalized(second),
    decreases second.len(),
{
    assert(first.push('_').drop_last() =~= first);
    if second.len() == 0 {
        assert(first + second =~= first);
        assert(normalized(first) + normalized(second) =~= normalized(first));
        assert(seq!['_'] + second =~= seq!['_']);
        assert(seq!['_'].drop_last() =~= Seq::empty());
        assert(second =~= Seq::empty());
    } else {
        let rest = second.drop_last();
        lemma_name_parts(first, rest);
        assert((first + second).drop_last() =~= first + rest);
        assert((seq!['_'] + second).drop_last() =~= seq!['_'] + rest);
        assert(normalized(first + second) =~= normalized(first) + normalized(second));
        assert(normalized(seq!['_'] + second) =~= normalized(second));
    }
}

proof fn lemma_name_lengths()
    ensures
        "GET"@.len() == 3,
        "OPEN"@.len() == 4,
        "POST"@.len() == 4,
        "PUT"@.len() == 3,
        "SUM"@.len() == 3,
        "MIN"@.len() == 3,
        "TONUMBER"@.len() == 8,
        "CEIL"@.len() == 4,
        "FLOOR"@.len() == 5,
        "ASSIGN"@.len() == 6,
        "PARSE"@.len() == 5,
        "PARSEJSON"@.len() == 9,
        "COLOR"@.len() == 5,
        "EQ"@.len() == 2,
        "OR"@.len() == 2,
        "AND"@.len() == 3,
        "ADDDATE"@.len() == 7,
        "ISODATE"@.len() == 7,
        "GETDATE"@.len() == 7,
        "MINDATE"@.len() == 7,
        "MAXDATE"@.len() == 7,
        "TODAY"@.len() == 5,
        "SOFTMAX"@.len() == 7,
        "ENTROPY"@.len() == 7,
        "L2"@.len() == 2,
        "RANDOM"@.len() == 6,
        "SUBTRACT"@.len() == 8,
        "NN"@.len() == 2,
        "NN2"@.len() == 3,
        "TSNE"@.len() == 4,
        "OPTICS"@.len() == 6,
        "UMAP"@.len() == 4,
        "INDEXOF"@.len() == 7,
        "RANGE"@.len() == 5,
        "AT"@.len() == 2,
        "DISTINCT"@.len() == 8,
        "SORT"@.len() == 4,
        "COUNT"@.len() == 5,
        "ARRAY"@.len() == 5,
        "CROSSJOIN"@.len() == 9,
        "ZIPROWS"@.len() == 7,
        "UNZIPROWS"@.len() == 9,
        "JOINROWS"@.len() == 8,
        "JOINROWSINDEX"@.len() == 13,
        "NEWLINE"@.len() == 7,
        "CONCAT"@.len() == 6,
        "BASE64"@.len() == 6,
        "LEN"@.len() == 3,
        "SPLIT"@.len() == 5,
        "JOINSTRING"@.len() == 10,
        "RANDOMSTRING"@.len() == 12,
{
    reveal_strlit("GET");
    reveal_strlit("OPEN");
    reveal_strlit("POST");
    reveal_strlit("PUT");
    reveal_strlit("SUM");
    reveal_strlit("MIN");
    reveal_strlit("TONUMBER");
    reveal_strlit("CEIL");
    reveal_strlit("FLOOR");
    reveal_strlit("ASSIGN");
    reveal_strlit("PARSE");
    reveal_strlit("PARSEJSON");
    reveal_strlit("COLOR");
    reveal_strlit("EQ");
    reveal_strlit("OR");
    reveal_strlit("AND");
    reveal_strlit("ADDDATE");
    reveal_strlit("ISODATE");
    reveal_strlit("GETDATE");
    reveal_strlit("MINDATE");
    reveal_strlit("MAXDATE");
    reveal_strlit("TODAY");
    reveal_strlit("SOFTMAX");
    reveal_strlit("ENTROPY");
    reveal_strlit("L2");
    reveal_strlit("RANDOM");
    reveal_strlit("SUBTRACT");
    reveal_strlit("NN");
    reveal_strlit("NN2");
    reveal_strlit("TSNE");
    reveal_strlit("OPTICS");
    reveal_strlit("UMAP");
    reveal_strlit("INDEXOF");
    reveal_strlit("RANGE");
    reveal_strlit("AT");
    reveal_strlit("DISTINCT");
    reveal_strlit("SORT");
    reveal_strlit("COUNT");
    reveal_strlit("ARRAY");
    reveal_strlit("CROSSJOIN");
    reveal_strlit("ZIPROWS");
    reveal_strlit("UNZIPROWS");
    reveal_strlit("JOINROWS");
    reveal_strlit("JOINROWSINDEX");
    reveal_strlit("NEWLINE");
    reveal_strlit("CONCAT");
    reveal_strlit("BASE64");
    reveal_strlit("LEN");
    reveal_strlit("SPLIT");
    reveal_strlit("JOINSTRING");
    reveal_strlit("RANDOMSTRING");
}

/// `GET` opens a source with one argument, and reads a field with any other number.
pub proof fn lemma_get_name(count: int)
    ensures
        function_of("GET"@, 1) == Some(Function::Open),
        count != 1 ==> function_of("GET"@, count) == Some(Function::Field),
{
    lemma_name_lengths();
    reveal_strlit("GET");
    lemma_plain_name("GET"@);
}

/// What `OPEN` stands for, and with how many arguments.
pub proof fn lemma_open_name(count: int)
    ensures
        function_of("OPEN"@, count) == (if count == 1 {
            Some(Function::Open)
        } else {
            None
        }),
{
    lemma_name_lengths();
    reveal_strlit("OPEN");
    lemma_plain_name("OPEN"@);
}

/// What `POST` stands for, and with how many arguments.
pub proof fn lemma_post_name(count: int)
    ensures
        function_of("POST"@, count) == (if count == 1 {
            Some(Function::Post)
        } else {
            None
        }),
{
    lemma_name_lengths();
    reveal_strlit("POST");
    reveal_strlit("OPEN");
    lemma_plain_name("POST"@);
    assert("POST"@[0] != "OPEN"@[0]);
}

/// What `PUT` stands for, and with how many arguments.
pub proof fn lemma_put_name(count: int)
    ensures
        function_of("PUT"@, count) == (if count == 1 {
            Some(Function::Put)
        } else {
            None
        }),
{
    lemma_name_lengths();
    reveal_strlit("PUT");
    reveal_strlit("GET");
    lemma_plain_name("PUT"@);
    assert("PUT"@[0] != "GET"@[0]);
}

/// What `SUM` stands for, and with how many arguments.
pub proof fn lemma_sum_name(count: int)
    ensures
        function_of("SUM"@, count) == Some(Function::Sum),
{
    lemma_name_lengths();
    reveal_strlit("SUM");
    reveal_strlit("GET");
    reveal_strlit("PUT");
    lemma_plain_name("SUM"@);
    assert("SUM"@[0] != "GET"@[0]);
    assert("SUM"@[0] != "PUT"@[0]);
}

/// What `MIN` stands for, and with how many arguments.
pub proof fn lemma_min_name(count: int)
    ensures
        function_of("MIN"@, count) == Some(Function::Min),
{
    lemma_name_lengths();
    reveal_strlit("MIN");
    reveal_strlit("GET");
    reveal_strlit("PUT");
    reveal_strlit("SUM");
    lemma_plain_name("MIN"@);
    assert("MIN"@[0] != "GET"@[0]);
    assert("MIN"@[0] != "PUT"@[0]);
    assert("MIN"@[0] != "SUM"@[0]);
}

/// What `TONUMBER` stands for, and with how many arguments.
pub proof fn lemma_tonumber_name(count: int)
    ensures
        function_of("TONUMBER"@, count) == (if count == 1 {
            Some(Function::ToNumber)
        } else {
            None
        }),
{
    lemma_name_lengths();
    reveal_strlit("TONUMBER");
    lemma_plain_name("TONUMBER"@);
}

/// What `CEIL` stands for, and with how many arguments.
pub proof fn lemma_ceil_name(count: int)
    ensures
        function_of("CEIL"@, count) == (if count == 1 {
            Some(Function::Ceil)
        } else {
            None
        }),
{
    lemma_name_lengths();
    reveal_strlit("CEIL");
    reveal_strlit("OPEN");
    reveal_strlit("POST");
    lemma_plain_name("CEIL"@);
    assert("CEIL"@[0] != "OPEN"@[0]);
    assert("CEIL"@[0] != "POST"@[0]);
}

/// What `FLOOR` stands for, and with how many arguments.
pub proof fn lemma_floor_name(count: int)
    ensures
        function_of("FLOOR"@, count) == (if count == 1 {
            Some(Function::Floor)
        } else {
            None
        }),
{
    lemma_name_lengths();
    reveal_strlit("FLOOR");
    lemma_plain_name("FLOOR"@);
}

/// What `ASSIGN` stands for, and with how many arguments.
pub proof fn lemma_assign_name(count: int)
    ensures
        function_of("ASSIGN"@, count) == Some(Function::Assign),
{
    lemma_name_lengths();
    reveal_strlit("ASSIGN");
    lemma_plain_name("ASSIGN"@);
}

/// What `PARSE` stands for, and with how many arguments.
pub proof fn lemma_parse_name(count: int)
    ensures
        function_of("PARSE"@, count) == (if count == 1 {
            Some(Function::Parse)
        } else {
            None
        }),
{
    lemma_name_lengths();
    reveal_strlit("PARSE");
    reveal_strlit("FLOOR");
    lemma_plain_name("PARSE"@);
    assert("PARSE"@[0] != "FLOOR"@[0]);
}

/// What `PARSEJSON` stands for, and with how many arguments.
pub proof fn lemma_parsejson_name(count: int)
    ensures
        function_of("PARSEJSON"@, count) == (if count == 1 {
            Some(Function::Parse)
        } else {
            None
        }),
{
    lemma_name_lengths();
    reveal_strlit("PARSEJSON");
    lemma_plain_name("PARSEJSON"@);
}

/// What `COLOR` stands for, and with how many arguments.
pub proof fn lemma_color_name(count: int)
    ensures
        function_of("COLOR"@, count) == (if count == 1 {
            Some(Function::Color)
        } else {
            None
        }),
{
    lemma_name_lengths();
    reveal_strlit("COLOR");
    reveal_strlit("FLOOR");
    reveal_strlit("PARSE");
    lemma_plain_name("COLOR"@);
    assert("COLOR"@[0] != "FLOOR"@[0]);
    assert("COLOR"@[0] != "PARSE"@[0]);
}

/// What `EQ` stands for, and with how many arguments.
pub proof fn lemma_eq_name(count: int)
    ensures
        function_of("EQ"@, count) == (if count == 2 {
            Some(Function::Eq)
        } else {
            None
        }),
{
    lemma_name_lengths();
    reveal_strlit("EQ");
    lemma_plain_name("EQ"@);
}

/// What `OR` stands for, and with how many arguments.
pub proof fn lemma_or_name(count: int)
    ensures
        function_of("OR"@, count) == Some(Function::Or),
{
    lemma_name_lengths();
    reveal_strlit("OR");
    reveal_strlit("EQ");
    lemma_plain_name("OR"@);
    assert("OR"@[0] != "EQ"@[0]);
}

/// What `AND` stands for, and with how many arguments.
pub proof fn lemma_and_name(count: int)
    ensures
        function_of("AND"@, count) == Some(Function::And),
{
    lemma_name_lengths();
    reveal_strlit("AND");
    reveal_strlit("GET");
    reveal_strlit("PUT");
    reveal_strlit("SUM");
    reveal_strlit("MIN");
    lemma_plain_name("AND"@);
    assert("AND"@[0] != "GET"@[0]);
    assert("AND"@[0] != "PUT"@[0]);
    assert("AND"@[0] != "SUM"@[0]);
    assert("AND"@[0] != "MIN"@[0]);
}

/// What `ADDDATE` stands for, and with how many arguments.
pub proof fn lemma_adddate_name(count: int)
    ensures
        function_of("ADDDATE"@, count) == (if count == 2 {
            Some(Function::AddDate)
        } else {
            None
        }),
{
    lemma_name_lengths();
    reveal_strlit("ADDDATE");
    lemma_plain_name("ADDDATE"@);
}

/// What `ISODATE` stands for, and with how many arguments.
pub proof fn lemma_isodate_name(count: int)
    ensures
        function_of("ISODATE"@, count) == (if count == 1 {
            Some(Function::IsoDate)
        } else {
            None
        }),
{
    lemma_name_lengths();
    reveal_strlit("ISODATE");
    reveal_strlit("ADDDATE");
    lemma_plain_name("ISODATE"@);
    assert("ISODATE"@[0] != "ADDDATE"@[0]);
}

/// What `GETDATE` stands for, and with how many arguments.
pub proof fn lemma_getdate_name(count: int)
    ensures
        function_of("GETDATE"@, count) == (if count == 1 {
            Some(Function::GetDate)
        } else {
            None
        }),
{
    lemma_name_lengths();
    reveal_strlit("GETDATE");
    reveal_strlit("ADDDATE");
    reveal_strlit("ISODATE");
    lemma_plain_name("GETDATE"@);
    assert("GETDATE"@[0] != "ADDDATE"@[0]);
    assert("GETDATE"@[0] != "ISODATE"@[0]);
}

/// What `MINDATE` stands for, and with how many arguments.
pub proof fn lemma_mindate_name(count: int)
    ensures
        function_of("MINDATE"@, count) == Some(Function::MinDate),
{
    lemma_name_lengths();
    reveal_strlit("MINDATE");
    reveal_strlit("ADDDATE");
    reveal_strlit("ISODATE");
    reveal_strlit("GETDATE");
    lemma_plain_name("MINDATE"@);
    assert("MINDATE"@[0] != "ADDDATE"@[0]);
    assert("MINDATE"@[0] != "ISODATE"@[0]);
    assert("MINDATE"@[0] != "GETDATE"@[0]);
}

/// What `MAXDATE` stands for, and with how many arguments.
pub proof fn lemma_maxdate_name(count: int)
    ensures
        function_of("MAXDATE"@, count) == Some(Function::MaxDate),
{
    lemma_name_lengths();
    reveal_strlit("MAXDATE");
    reveal_strlit("ADDDATE");
    reveal_strlit("ISODATE");
    reveal_strlit("GETDATE");
    reveal_strlit("MINDATE");
    lemma_plain_name("MAXDATE"@);
    assert("MAXDATE"@[0] != "ADDDATE"@[0]);
    assert("MAXDATE"@[0] != "ISODATE"@[0]);
    assert("MAXDATE"@[0] != "GETDATE"@[0]);
    assert("MAXDATE"@[1] != "MINDATE"@[1]);
}

/// What `TODAY` stands for, and with how many arguments.
pub proof fn lemma_today_name(count: int)
    ensures
        function_of("TODAY"@, count) == (if count == 0 {
            Some(Function::Today)
        } else {
            None
        }),
{
    lemma_name_lengths();
    reveal_strlit("TODAY");
    reveal_strlit("FLOOR");
    reveal_strlit("PARSE");
    reveal_strlit("COLOR");
    lemma_plain_name("TODAY"@);
    assert("TODAY"@[0] != "FLOOR"@[0]);
    assert("TODAY"@[0] != "PARSE"@[0]);
    assert("TODAY"@[0] != "COLOR"@[0]);
}

/// What `SOFTMAX` stands for, and with how many arguments.
pub proof fn lemma_softmax_name(count: int)
    ensures
        function_of("SOFTMAX"@, count) == (if count == 1 {
            Some(Function::Softmax)
        } else {
            None
        }),
{
    lemma_name_lengths();
    reveal_strlit("SOFTMAX");
    reveal_strlit("ADDDATE");
    reveal_strlit("ISODATE");
    reveal_strlit("GETDATE");
    reveal_strlit("MINDATE");
    reveal_strlit("MAXDATE");
    lemma_plain_name("SOFTMAX"@);
    assert("SOFTMAX"@[0] != "ADDDATE"@[0]);
    assert("SOFTMAX"@[0] != "ISODATE"@[0]);
    assert("SOFTMAX"@[0] != "GETDATE"@[0]);
    assert("SOFTMAX"@[0] != "MINDATE"@[0]);
    assert("SOFTMAX"@[0] != "MAXDATE"@[0]);
}

/// What `ENTROPY` stands for, and with how many arguments.
pub proof fn lemma_entropy_name(count: int)
    ensures
        function_of("ENTROPY"@, count) == (if count == 1 {
            Some(Function::Entropy)
        } else {
            None
        }),
{
    lemma_name_lengths();
    reveal_strlit("ENTROPY");
    reveal_strlit("ADDDATE");
    reveal_strlit("ISODATE");
    reveal_strlit("GETDATE");
    reveal_strlit("MINDATE");
    reveal_strlit("MAXDATE");
    reveal_strlit("SOFTMAX");
    lemma_plain_name("ENTROPY"@);
    assert("ENTROPY"@[0] != "ADDDATE"@[0]);
    assert("ENTROPY"@[0] != "ISODATE"@[0]);
    assert("ENTROPY"@[0] != "GETDATE"@[0]);
    assert("ENTROPY"@[0] != "MINDATE"@[0]);
    assert("ENTROPY"@[0] != "MAXDATE"@[0]);
    assert("ENTROPY"@[0] != "SOFTMAX"@[0]);
}

/// What `L2` stands for, and with how many arguments.
pub proof fn lemma_l2_name(count: int)
    ensures
        function_of("L2"@, count) == (if count == 1 {
            Some(Function::L2)
        } else {
            None
        }),
{
    lemma_name_lengths();
    reveal_strlit("L2");
    reveal_strlit("EQ");
    reveal_strlit("OR");
    lemma_plain_name("L2"@);
    assert("L2"@[0] != "EQ"@[0]);
    assert("L2"@[0] != "OR"@[0]);
}

/// What `RANDOM` stands for, and with how many arguments.
pub proof fn lemma_random_name(count: int)
    ensures
        function_of("RANDOM"@, count) == (if count == 0 {
            Some(Function::Random)
        } else {
            None
        }),
{
    lemma_name_lengths();
    reveal_strlit("RANDOM");
    reveal_strlit("ASSIGN");
    lemma_plain_name("RANDOM"@);
    assert("RANDOM"@[0] != "ASSIGN"@[0]);
}

/// What `SUBTRACT` stands for, and with how many arguments.
pub proof fn lemma_subtract_name(count: int)
    ensures
        function_of("SUBTRACT"@, count) == (if count == 2 {
            Some(Function::Subtract)
        } else {
            None
        }),
{
    lemma_name_lengths();
    reveal_strlit("SUBTRACT");
    reveal_strlit("TONUMBER");
    lemma_plain_name("SUBTRACT"@);
    assert("SUBTRACT"@[0] != "TONUMBER"@[0]);
}

/// What `NN` stands for, and with how many arguments.
pub proof fn lemma_nn_name(count: int)
    ensures
        function_of("NN"@, count) == (if 3 <= count <= 5 {
            Some(Function::Nn)
        } else {
            None
        }),
{
    lemma_name_lengths();
    reveal_strlit("NN");
    reveal_strlit("EQ");
    reveal_strlit("OR");
    reveal_strlit("L2");
    lemma_plain_name("NN"@);
    assert("NN"@[0] != "EQ"@[0]);
    assert("NN"@[0] != "OR"@[0]);
    assert("NN"@[0] != "L2"@[0]);
}

/// What `NN2` stands for, and with how many arguments.
pub proof fn lemma_nn2_name(count: int)
    ensures
        function_of("NN2"@, count) == (if count == 3 {
            Some(Function::Nn2)
        } else {
            None
        }),
{
    lemma_name_lengths();
    reveal_strlit("NN2");
    reveal_strlit("GET");
    reveal_strlit("PUT");
    reveal_strlit("SUM");
    reveal_strlit("MIN");
    reveal_strlit("AND");
    lemma_plain_name("NN2"@);
    assert("NN2"@[0] != "GET"@[0]);
    assert("NN2"@[0] != "PUT"@[0]);
    assert("NN2"@[0] != "SUM"@[0]);
    assert("NN2"@[0] != "MIN"@[0]);
    assert("NN2"@[0] != "AND"@[0]);
}

/// What `TSNE` stands for, and with how many arguments.
pub proof fn lemma_tsne_name(count: int)
    ensures
        function_of("TSNE"@, count) == (if count == 2 {
            Some(Function::Tsne)
        } else {
            None
        }),
{
    lemma_name_lengths();
    reveal_strlit("TSNE");
    reveal_strlit("OPEN");
    reveal_strlit("POST");
    reveal_strlit("CEIL");
    lemma_plain_name("TSNE"@);
    assert("TSNE"@[0] != "OPEN"@[0]);
    assert("TSNE"@[0] != "POST"@[0]);
    assert("TSNE"@[0] != "CEIL"@[0]);
}

/// What `OPTICS` stands for, and with how many arguments.
pub proof fn lemma_optics_name(count: int)
    ensures
        function_of("OPTICS"@, count) == (if count == 2 {
            Some(Function::Optics)
        } else {
            None
        }),
{
    lemma_name_lengths();
    reveal_strlit("OPTICS");
    reveal_strlit("ASSIGN");
    reveal_strlit("RANDOM");
    lemma_plain_name("OPTICS"@);
    assert("OPTICS"@[0] != "ASSIGN"@[0]);
    assert("OPTICS"@[0] != "RANDOM"@[0]);
}

/// What `UMAP` stands for, and with how many arguments.
pub proof fn lemma_umap_name(count: int)
    ensures
        function_of("UMAP"@, count) == (if 1 <= count <= 2 {
            Some(Function::Umap)
        } else {
            None
        }),
{
    lemma_name_lengths();
    reveal_strlit("UMAP");
    reveal_strlit("OPEN");
    reveal_strlit("POST");
    reveal_strlit("CEIL");
    reveal_strlit("TSNE");
    lemma_plain_name("UMAP"@);
    assert("UMAP"@[0] != "OPEN"@[0]);
    assert("UMAP"@[0] != "POST"@[0]);
    assert("UMAP"@[0] != "CEIL"@[0]);
    assert("UMAP"@[0] != "TSNE"@[0]);
}

/// What `INDEXOF` stands for, and with how many arguments.
pub proof fn lemma_indexof_name(count: int)
    ensures
        function_of("INDEXOF"@, count) == (if count == 2 {
            Some(Function::IndexOf)
        } else {
            None
        }),
{
    lemma_name_lengths();
    reveal_strlit("INDEXOF");
    reveal_strlit("ADDDATE");
    reveal_strlit("ISODATE");
    reveal_strlit("GETDATE");
    reveal_strlit("MINDATE");
    reveal_strlit("MAXDATE");
    reveal_strlit("SOFTMAX");
    reveal_strlit("ENTROPY");
    lemma_plain_name("INDEXOF"@);
    assert("INDEXOF"@[0] != "ADDDATE"@[0]);
    assert("INDEXOF"@[1] != "ISODATE"@[1]);
    assert("INDEXOF"@[0] != "GETDATE"@[0]);
    assert("INDEXOF"@[0] != "MINDATE"@[0]);
    assert("INDEXOF"@[0] != "MAXDATE"@[0]);
    assert("INDEXOF"@[0] != "SOFTMAX"@[0]);
    assert("INDEXOF"@[0] != "ENTROPY"@[0]);
}

/// What `RANGE` stands for, and with how many arguments.
pub proof fn lemma_range_name(count: int)
    ensures
        function_of("RANGE"@, count) == (if count == 2 {
            Some(Function::Range)
        } else {
            None
        }),
{
    lemma_name_lengths();
    reveal_strlit("RANGE");
    reveal_strlit("FLOOR");
    reveal_strlit("PARSE");
    reveal_strlit("COLOR");
    reveal_strlit("TODAY");
    lemma_plain_name("RANGE"@);
    assert("RANGE"@[0] != "FLOOR"@[0]);
    assert("RANGE"@[0] != "PARSE"@[0]);
    assert("RANGE"@[0] != "COLOR"@[0]);
    assert("RANGE"@[0] != "TODAY"@[0]);
}

/// What `AT` stands for, and with how many arguments.
pub proof fn lemma_at_name(count: int)
    ensures
        function_of("AT"@, count) == (if count == 2 {
            Some(Function::At)
        } else {
            None
        }),
{
    lemma_name_lengths();
    reveal_strlit("AT");
    reveal_strlit("EQ");
    reveal_strlit("OR");
    reveal_strlit("L2");
    reveal_strlit("NN");
    lemma_plain_name("AT"@);
    assert("AT"@[0] != "EQ"@[0]);
    assert("AT"@[0] != "OR"@[0]);
    assert("AT"@[0] != "L2"@[0]);
    assert("AT"@[0] != "NN"@[0]);
}

/// What `DISTINCT` stands for, and with how many arguments.
pub proof fn lemma_distinct_name(count: int)
    ensures
        function_of("DISTINCT"@, count) == Some(Function::Distinct),
{
    lemma_name_lengths();
    reveal_strlit("DISTINCT");
    reveal_strlit("TONUMBER");
    reveal_strlit("SUBTRACT");
    lemma_plain_name("DISTINCT"@);
    assert("DISTINCT"@[0] != "TONUMBER"@[0]);
    assert("DISTINCT"@[0] != "SUBTRACT"@[0]);
}

/// What `SORT` stands for, and with how many arguments.
pub proof fn lemma_sort_name(count: int)
    ensures
        function_of("SORT"@, count) == Some(Function::Sort),
{
    lemma_name_lengths();
    reveal_strlit("SORT");
    reveal_strlit("OPEN");
    reveal_strlit("POST");
    reveal_strlit("CEIL");
    reveal_strlit("TSNE");
    reveal_strlit("UMAP");
    lemma_plain_name("SORT"@);
    assert("SORT"@[0] != "OPEN"@[0]);
    assert("SORT"@[0] != "POST"@[0]);
    assert("SORT"@[0] != "CEIL"@[0]);
    assert("SORT"@[0] != "TSNE"@[0]);
    assert("SORT"@[0] != "UMAP"@[0]);
}

/// What `COUNT` stands for, and with how many arguments.
pub proof fn lemma_count_name(count: int)
    ensures
        function_of("COUNT"@, count) == Some(Function::Count),
{
    lemma_name_lengths();
    reveal_strlit("COUNT");
    reveal_strlit("FLOOR");
    reveal_strlit("PARSE");
    reveal_strlit("COLOR");
    reveal_strlit("TODAY");
    reveal_strlit("RANGE");
    lemma_plain_name("COUNT"@);
    assert("COUNT"@[0] != "FLOOR"@[0]);
    assert("COUNT"@[0] != "PARSE"@[0]);
    assert("COUNT"@[2] != "COLOR"@[2]);
    assert("COUNT"@[0] != "TODAY"@[0]);
    assert("COUNT"@[0] != "RANGE"@[0]);
}

/// What `ARRAY` stands for, and with how many arguments.
pub proof fn lemma_array_name(count: int)
    ensures
        function_of("ARRAY"@, count) == Some(Function::Array),
{
    lemma_name_lengths();
    reveal_strlit("ARRAY");
    reveal_strlit("FLOOR");
    reveal_strlit("PARSE");
    reveal_strlit("COLOR");
    reveal_strlit("TODAY");
    reveal_strlit("RANGE");
    reveal_strlit("COUNT");
    lemma_plain_name("ARRAY"@);
    assert("ARRAY"@[0] != "FLOOR"@[0]);
    assert("ARRAY"@[0] != "PARSE"@[0]);
    assert("ARRAY"@[0] != "COLOR"@[0]);
    assert("ARRAY"@[0] != "TODAY"@[0]);
    assert("ARRAY"@[0] != "RANGE"@[0]);
    assert("ARRAY"@[0] != "COUNT"@[0]);
}

/// What `CROSSJOIN` stands for, and with how many arguments.
pub proof fn lemma_crossjoin_name(count: int)
    ensures
        function_of("CROSSJOIN"@, count) == (if count == 1 {
            Some(Function::CrossJoin)
        } else {
            None
        }),
{
    lemma_name_lengths();
    reveal_strlit("CROSSJOIN");
    reveal_strlit("PARSEJSON");
    lemma_plain_name("CROSSJOIN"@);
    assert("CROSSJOIN"@[0] != "PARSEJSON"@[0]);
}

/// What `ZIPROWS` stands for, and with how many arguments.
pub proof fn lemma_ziprows_name(count: int)
    ensures
        function_of("ZIPROWS"@, count) == (if count == 1 {
            Some(Function::ZipRows)
        } else {
            None
        }),
{
    lemma_name_lengths();
    reveal_strlit("ZIPROWS");
    reveal_strlit("ADDDATE");
    reveal_strlit("ISODATE");
    reveal_strlit("GETDATE");
    reveal_strlit("MINDATE");
    reveal_strlit("MAXDATE");
    reveal_strlit("SOFTMAX");
    reveal_strlit("ENTROPY");
    reveal_strlit("INDEXOF");
    lemma_plain_name("ZIPROWS"@);
    assert("ZIPROWS"@[0] != "ADDDATE"@[0]);
    assert("ZIPROWS"@[0] != "ISODATE"@[0]);
    assert("ZIPROWS"@[0] != "GETDATE"@[0]);
    assert("ZIPROWS"@[0] != "MINDATE"@[0]);
    assert("ZIPROWS"@[0] != "MAXDATE"@[0]);
    assert("ZIPROWS"@[0] != "SOFTMAX"@[0]);
    assert("ZIPROWS"@[0] != "ENTROPY"@[0]);
    assert("ZIPROWS"@[0] != "INDEXOF"@[0]);
}

/// What `UNZIPROWS` stands for, and with how many arguments.
pub proof fn lemma_unziprows_name(count: int)
    ensures
        function_of("UNZIPROWS"@, count) == (if count == 1 {
            Some(Function::UnzipRows)
        } else {
            None
        }),
{
    lemma_name_lengths();
    reveal_strlit("UNZIPROWS");
    reveal_strlit("PARSEJSON");
    reveal_strlit("CROSSJOIN");
    lemma_plain_name("UNZIPROWS"@);
    assert("UNZIPROWS"@[0] != "PARSEJSON"@[0]);
    assert("UNZIPROWS"@[0] != "CROSSJOIN"@[0]);
}

/// What `JOINROWS` stands for, and with how many arguments.
pub proof fn lemma_joinrows_name(count: int)
    ensures
        function_of("JOINROWS"@, count) == (if count == 2 {
            Some(Function::JoinRows)
        } else {
            None
        }),
{
    lemma_name_lengths();
    reveal_strlit("JOINROWS");
    reveal_strlit("TONUMBER");
    reveal_strlit("SUBTRACT");
    reveal_strlit("DISTINCT");
    lemma_plain_name("JOINROWS"@);
    assert("JOINROWS"@[0] != "TONUMBER"@[0]);
    assert("JOINROWS"@[0] != "SUBTRACT"@[0]);
    assert("JOINROWS"@[0] != "DISTINCT"@[0]);
}

/// What `JOINROWSINDEX` stands for, and with how many arguments.
pub proof fn lemma_joinrowsindex_name(count: int)
    ensures
        function_of("JOINROWSINDEX"@, count) == (if count == 2 {
            Some(Function::JoinRowsIndex)
        } else {
            None
        }),
{
    lemma_name_lengths();
    reveal_strlit("JOINROWSINDEX");
    lemma_plain_name("JOINROWSINDEX"@);
}

/// What `NEWLINE` stands for, and with how many arguments.
pub proof fn lemma_newline_name(count: int)
    ensures
        function_of("NEWLINE"@, count) == (if count == 0 {
            Some(Function::NewLine)
        } else {
            None
        }),
{
    lemma_name_lengths();
    reveal_strlit("NEWLINE");
    reveal_strlit("ADDDATE");
    reveal_strlit("ISODATE");
    reveal_strlit("GETDATE");
    reveal_strlit("MINDATE");
    reveal_strlit("MAXDATE");
    reveal_strlit("SOFTMAX");
    reveal_strlit("ENTROPY");
    reveal_strlit("INDEXOF");
    reveal_strlit("ZIPROWS");
    lemma_plain_name("NEWLINE"@);
    assert("NEWLINE"@[0] != "ADDDATE"@[0]);
    assert("NEWLINE"@[0] != "ISODATE"@[0]);
    assert("NEWLINE"@[0] != "GETDATE"@[0]);
    assert("NEWLINE"@[0] != "MINDATE"@[0]);
    assert("NEWLINE"@[0] != "MAXDATE"@[0]);
    assert("NEWLINE"@[0] != "SOFTMAX"@[0]);
    assert("NEWLINE"@[0] != "ENTROPY"@[0]);
    assert("NEWLINE"@[0] != "INDEXOF"@[0]);
    assert("NEWLINE"@[0] != "ZIPROWS"@[0]);
}

/// What `CONCAT` stands for, and with how many arguments.
pub proof fn lemma_concat_name(count: int)
    ensures
        function_of("CONCAT"@, count) == Some(Function::Concat),
{
    lemma_name_lengths();
    reveal_strlit("CONCAT");
    reveal_strlit("ASSIGN");
    reveal_strlit("RANDOM");
    reveal_strlit("OPTICS");
    lemma_plain_name("CONCAT"@);
    assert("CONCAT"@[0] != "ASSIGN"@[0]);
    assert("CONCAT"@[0] != "RANDOM"@[0]);
    assert("CONCAT"@[0] != "OPTICS"@[0]);
}

/// What `BASE64` stands for, and with how many arguments.
pub proof fn lemma_base64_name(count: int)
    ensures
        function_of("BASE64"@, count) == (if count == 1 {
            Some(Function::Base64)
        } else {
            None
        }),
{
    lemma_name_lengths();
    reveal_strlit("BASE64");
    reveal_strlit("ASSIGN");
    reveal_strlit("RANDOM");
    reveal_strlit("OPTICS");
    reveal_strlit("CONCAT");
    lemma_plain_name("BASE64"@);
    assert("BASE64"@[0] != "ASSIGN"@[0]);
    assert("BASE64"@[0] != "RANDOM"@[0]);
    assert("BASE64"@[0] != "OPTICS"@[0]);
    assert("BASE64"@[0] != "CONCAT"@[0]);
}

/// What `LEN` stands for, and with how many arguments.
pub proof fn lemma_len_name(count: int)
    ensures
        function_of("LEN"@, count) == Some(Function::Len),
{
    lemma_name_lengths();
    reveal_strlit("LEN");
    reveal_strlit("GET");
    reveal_strlit("PUT");
    reveal_strlit("SUM");
    reveal_strlit("MIN");
    reveal_strlit("AND");
    reveal_strlit("NN2");
    lemma_plain_name("LEN"@);
    assert("LEN"@[0] != "GET"@[0]);
    assert("LEN"@[0] != "PUT"@[0]);
    assert("LEN"@[0] != "SUM"@[0]);
    assert("LEN"@[0] != "MIN"@[0]);
    assert("LEN"@[0] != "AND"@[0]);
    assert("LEN"@[0] != "NN2"@[0]);
}

/// What `SPLIT` stands for, and with how many arguments.
pub proof fn lemma_split_name(count: int)
    ensures
        function_of("SPLIT"@, count) == (if count == 2 {
            Some(Function::Split)
        } else {
            None
        }),
{
    lemma_name_lengths();
    reveal_strlit("SPLIT");
    reveal_strlit("FLOOR");
    reveal_strlit("PARSE");
    reveal_strlit("COLOR");
    reveal_strlit("TODAY");
    reveal_strlit("RANGE");
    reveal_strlit("COUNT");
    reveal_strlit("ARRAY");
    lemma_plain_name("SPLIT"@);
    assert("SPLIT"@[0] != "FLOOR"@[0]);
    assert("SPLIT"@[0] != "PARSE"@[0]);
    assert("SPLIT"@[0] != "COLOR"@[0]);
    assert("SPLIT"@[0] != "TODAY"@[0]);
    assert("SPLIT"@[0] != "RANGE"@[0]);
    assert("SPLIT"@[0] != "COUNT"@[0]);
    assert("SPLIT"@[0] != "ARRAY"@[0]);
}

/// What `JOINSTRING` stands for, and with how many arguments.
pub proof fn lemma_joinstring_name(count: int)
    ensures
        function_of("JOINSTRING"@, count) == (if count == 2 {
            Some(Function::JoinString)
        } else {
            None
        }),
{
    lemma_name_lengths();
    reveal_strlit("JOINSTRING");
    lemma_plain_name("JOINSTRING"@);
}

/// What `RANDOMSTRING` stands for, and with how many arguments.
pub proof fn lemma_randomstring_name(count: int)
    ensures
        function_of("RANDOMSTRING"@, count) == (if count == 1 {
            Some(Function::RandomString)
        } else {
            None
        }),
{
    lemma_name_lengths();
    reveal_strlit("RANDOMSTRING");
    lemma_plain_name("RANDOMSTRING"@);
}

} // verus!
