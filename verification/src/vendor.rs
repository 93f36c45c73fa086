//! The vendor table: from the first six hexadecimal digits of a MAC address
//! to the organization they were assigned to.
use vstd::prelude::*;
use vstd::hash_map::StringHashMap;
use crate::text::{
    all_hex, chars_of, first_index, is_hex_char, is_hex_digit, lemma_first_index_is_first, lines,
    rows, split, split_lines, string_of, texts, to_upper, to_upper_chars, trim, trim_chars,
};

verus! {

/// How many quote marks `s` holds.
pub open spec fn quotes_in(s: Seq<char>) -> int
    decreases s.len(),
{
    if s.len() == 0 {
        0
    } else {
        quotes_in(s.drop_last()) + if s.last() == '"' {
            1int
        } else {
            0int
        }
    }
}

/// `s` with its quote marks left out.
pub open spec fn unquoted(s: Seq<char>) -> Seq<char>
    decreases s.len(),
{
    if s.len() == 0 {
        s
    } else if s.last() == '"' {
        unquoted(s.drop_last())
    } else {
        unquoted(s.drop_last()).push(s.last())
    }
}

/// Whether a field ends at position `i`: a comma stands there, outside quotes,
/// which is to say with an even number of quote marks before it.
pub open spec fn is_break(s: Seq<char>, i: int) -> bool {
    0 <= i < s.len() && s[i] == ',' && quotes_in(s.take(i)) % 2 == 0
}

/// The first position from `from` on at which a field ends; `s.len()` where
/// there is none.
pub open spec fn next_break(s: Seq<char>, from: int) -> int
    decreases s.len() - from,
{
    if from < 0 || from >= s.len() {
        s.len() as int
    } else if is_break(s, from) {
        from
    } else {
        next_break(s, from + 1)
    }
}

/// The fields of one line of comma-separated values. The line is cut at
/// every comma that stands outside quotes; the quote marks themselves belong
/// to no field. A quote that is never closed runs to the end of the line.
pub open spec fn csv_fields(line: Seq<char>) -> Seq<Seq<char>>
    decreases line.len(),
{
    let i = next_break(line, 0);
    if 0 <= i < line.len() {
        seq![unquoted(line.take(i))] + csv_fields(line.skip(i + 1))
    } else {
        seq![unquoted(line)]
    }
}

/// `next_break` is the one position from `from` on before which no field ends
/// and at which either one ends or the line does.
pub proof fn lemma_next_break(s: Seq<char>, from: int, i: int)
    requires
        0 <= from <= i <= s.len(),
        forall|j: int| from <= j < i ==> !is_break(s, j),
        i == s.len() || is_break(s, i),
    ensures
        next_break(s, from) == i,
    decreases i - from,
{
    if from < i {
        lemma_next_break(s, from + 1, i);
    }
}

/// Splits one line of comma-separated values into its fields. A field in
/// double quotes may hold commas; the quote marks are dropped.
pub fn parse_csv_line(line: &str) -> (fields: Vec<String>)
    ensures
        texts(fields@) == csv_fields(line@),
{
    let v = chars_of(line);
    let fields = csv_split(v.as_slice());
    let mut out: Vec<String> = Vec::new();
    let mut i: usize = 0;
    while i < fields.len()
        invariant
            i <= fields.len(),
            texts(out@) == rows(fields@).take(i as int),
        decreases fields.len() - i,
    {
        let ghost before = out@;
        out.push(string_of(fields[i].as_slice()));
        proof {
            assert(texts(out@) == texts(before).push(fields@[i as int]@));
            assert(rows(fields@).take(i + 1) == rows(fields@).take(i as int).push(
                fields@[i as int]@,
            ));
        }
        i += 1;
    }
    assert(rows(fields@).take(fields.len() as int) == rows(fields@));
    out
}

/// The fields of one line of comma-separated values, as characters.
pub fn csv_split(v: &[char]) -> (fields: Vec<Vec<char>>)
    ensures
        rows(fields@) == csv_fields(v@),
{
    let mut fields: Vec<Vec<char>> = Vec::new();
    let mut current: Vec<char> = Vec::new();
    let mut in_quotes = false;
    let ghost mut start: int = 0;
    let mut i: usize = 0;
    proof {
        assert(v@.skip(0) == v@);
        assert(rows(fields@) + csv_fields(v@) == csv_fields(v@));
    }
    while i < v.len()
        invariant
            0 <= start <= i <= v.len(),
            current@ == unquoted(v@.subrange(start, i as int)),
            in_quotes == (quotes_in(v@.subrange(start, i as int)) % 2 == 1),
            forall|j: int| 0 <= j < i - start ==> !is_break(v@.skip(start), j),
            csv_fields(v@) == rows(fields@) + csv_fields(v@.skip(start)),
        decreases v.len() - i,
    {
        let c = v[i];
        let ghost rest = v@.skip(start);
        let ghost sub = v@.subrange(start, i as int);
        proof {
            assert(rest.take(i - start) == sub);
            assert(rest[i - start] == c);
            let next = v@.subrange(start, i + 1);
            assert(next.drop_last() == sub);
            assert(next.last() == c);
        }
        if c == '"' {
            in_quotes = !in_quotes;
        } else if c == ',' && !in_quotes {
            proof {
                lemma_next_break(rest, 0, i - start);
                assert(rest.skip(i - start + 1) == v@.skip(i + 1));
                assert(rows(fields@.push(current)) == rows(fields@).push(current@));
                assert(rows(fields@) + (seq![current@] + csv_fields(v@.skip(i + 1))) == rows(
                    fields@,
                ).push(current@) + csv_fields(v@.skip(i + 1)));
                assert(v@.subrange(i + 1, i + 1).len() == 0);
            }
            fields.push(current);
            current = Vec::new();
            proof {
                start = i + 1;
            }
        } else {
            current.push(c);
        }
        i += 1;
    }
    proof {
        let rest = v@.skip(start);
        assert(rest == v@.subrange(start, v.len() as int));
        lemma_next_break(rest, 0, rest.len() as int);
        assert(rows(fields@.push(current)) == rows(fields@).push(current@));
        assert(rows(fields@) + seq![current@] == rows(fields@).push(current@));
    }
    fields.push(current);
    fields
}

/// A key of the vendor table: six hexadecimal digits, letters in upper case.
pub open spec fn is_oui_key(k: Seq<char>) -> bool {
    k.len() == 6 && all_hex(k) && to_upper(k) == k
}

/// The key that a prefix field stands for: the field without the white space
/// around it, in upper case, where that is exactly six hexadecimal digits.
pub open spec fn oui_key(field: Seq<char>) -> Option<Seq<char>> {
    let p = trim(field);
    if p.len() == 6 && all_hex(p) {
        Some(to_upper(p))
    } else {
        None
    }
}

/// What one row of the dataset adds to the table: its second field is the
/// prefix, its third the organization. A row with fewer than three fields, or
/// with a prefix that is no key, adds nothing.
pub open spec fn row_entry(row: Seq<char>) -> Option<(Seq<char>, Seq<char>)> {
    let parts = csv_fields(row);
    if parts.len() >= 3 {
        match oui_key(parts[1]) {
            Some(k) => Some((k, trim(parts[2]))),
            None => None,
        }
    } else {
        None
    }
}

/// The table that a sequence of rows makes; of two rows with one prefix the
/// later one stays.
pub open spec fn oui_entries(data: Seq<Seq<char>>) -> Map<Seq<char>, Seq<char>>
    decreases data.len(),
{
    if data.len() == 0 {
        Map::empty()
    } else {
        let before = oui_entries(data.drop_last());
        match row_entry(data.last()) {
            Some((k, org)) => before.insert(k, org),
            None => before,
        }
    }
}

/// The rows of a dataset: its lines but the first, which is the header.
pub open spec fn data_rows(content: Seq<char>) -> Seq<Seq<char>> {
    let all = lines(content);
    if all.len() > 0 {
        all.drop_first()
    } else {
        all
    }
}

/// The hexadecimal digits of `s`, in order, everything else left out.
pub open spec fn hex_digits_of(s: Seq<char>) -> Seq<char>
    decreases s.len(),
{
    if s.len() == 0 {
        s
    } else if is_hex_digit(s.last()) {
        hex_digits_of(s.drop_last()).push(s.last())
    } else {
        hex_digits_of(s.drop_last())
    }
}

/// The table key of a MAC address: its first six hexadecimal digits in upper
/// case, whatever separates them. A text with fewer has no key.
pub open spec fn oui_of(mac: Seq<char>) -> Option<Seq<char>> {
    let digits = hex_digits_of(mac);
    if digits.len() < 6 {
        None
    } else {
        Some(to_upper(digits.take(6)))
    }
}

/// The organization that a table gives for a MAC address; empty where the
/// address has no key or the table does not hold it.
pub open spec fn vendor_of(mac: Seq<char>, table: Map<Seq<char>, Seq<char>>) -> Seq<char> {
    match oui_of(mac) {
        Some(k) => if table.contains_key(k) {
            table[k]
        } else {
            Seq::empty()
        },
        None => Seq::empty(),
    }
}

/// A table from MAC prefixes to organization names. Every key is six
/// hexadecimal digits in upper case.
pub struct VendorTable {
    entries: StringHashMap<String>,
}

impl View for VendorTable {
    type V = Map<Seq<char>, Seq<char>>;

    closed spec fn view(&self) -> Map<Seq<char>, Seq<char>> {
        self.entries@.map_values(|org: String| org@)
    }
}

impl VendorTable {
    /// The empty table.
    pub fn new() -> (table: VendorTable)
        ensures
            table@ == Map::<Seq<char>, Seq<char>>::empty(),
    {
        let table = VendorTable { entries: StringHashMap::new() };
        assert(table@ == Map::<Seq<char>, Seq<char>>::empty());
        table
    }

    /// Enters `org` under the key that `prefix` stands for, in place of what
    /// was there, and tells whether `prefix` stands for a key; the table stays
    /// as it was where it does not.
    pub fn insert(&mut self, prefix: &str, org: &str) -> (added: bool)
        ensures
            added == oui_key(prefix@).is_some(),
            final(self)@ == match oui_key(prefix@) {
                Some(k) => old(self)@.insert(k, trim(org@)),
                None => old(self)@,
            },
    {
        let p = chars_of(prefix);
        let o = chars_of(org);
        self.insert_chars(p.as_slice(), o.as_slice())
    }

    /// `insert`, on characters.
    pub fn insert_chars(&mut self, prefix: &[char], org: &[char]) -> (added: bool)
        ensures
            added == oui_key(prefix@).is_some(),
            final(self)@ == match oui_key(prefix@) {
                Some(k) => old(self)@.insert(k, trim(org@)),
                None => old(self)@,
            },
    {
        let p = trim_chars(prefix);
        if p.len() != 6 {
            return false;
        }
        let mut i: usize = 0;
        while i < 6
            invariant
                i <= 6,
                p.len() == 6,
                p@ == trim(prefix@),
                *self == *old(self),
                forall|j: int| 0 <= j < i ==> is_hex_digit(#[trigger] p@[j]),
            decreases 6 - i,
        {
            if !is_hex_char(p[i]) {
                return false;
            }
            i += 1;
        }
        let key = to_upper_chars(p.as_slice());
        let name = trim_chars(org);
        let key_text = string_of(key.as_slice());
        let name_text = string_of(name.as_slice());
        proof {
            lemma_upper_key(p@);
            assert(old(self).entries@.insert(key_text@, name_text).map_values(|org: String| org@)
                == old(self)@.insert(key_text@, name_text@));
        }
        self.entries.insert(key_text, name_text);
        true
    }

    /// The organization entered under `key`, if any.
    pub fn get(&self, key: &str) -> (org: Option<String>)
        ensures
            match org {
                Some(name) => self@.contains_key(key@) && name@ == self@[key@],
                None => !self@.contains_key(key@),
            },
    {
        match self.entries.get(key) {
            Some(name) => Some(name.clone()),
            None => None,
        }
    }

    /// The number of entries.
    pub fn len(&self) -> (n: usize)
        ensures
            n == self@.len(),
    {
        broadcast use vstd::hash_map::group_hash_map_axioms;

        proof {
            lemma_map_values_len(self.entries@);
        }
        self.entries.len()
    }
}

/// Taking names for strings leaves the number of entries as it is.
pub proof fn lemma_map_values_len(m: Map<Seq<char>, String>)
    ensures
        m.map_values(|org: String| org@).len() == m.len(),
        m.map_values(|org: String| org@).dom() == m.dom(),
{
    assert(m.map_values(|org: String| org@).dom() =~= m.dom());
}

/// Six hexadecimal digits put in upper case are a key.
pub proof fn lemma_upper_key(p: Seq<char>)
    requires
        p.len() == 6,
        all_hex(p),
    ensures
        is_oui_key(to_upper(p)),
{
    let k = to_upper(p);
    assert forall|i: int| 0 <= i < k.len() implies is_hex_digit(#[trigger] k[i]) by {
        assert(is_hex_digit(p[i]));
    }
    assert(to_upper(k) =~= k) by {
        assert forall|i: int| 0 <= i < k.len() implies to_upper(k)[i] == k[i] by {
            assert(is_hex_digit(p[i]));
        }
    }
}

/// Every key of a table made from rows is six hexadecimal digits in upper
/// case.
pub proof fn lemma_oui_entries_keys(data: Seq<Seq<char>>)
    ensures
        forall|k: Seq<char>| oui_entries(data).contains_key(k) ==> is_oui_key(k),
    decreases data.len(),
{
    if data.len() > 0 {
        lemma_oui_entries_keys(data.drop_last());
        match row_entry(data.last()) {
            Some((k, org)) => {
                lemma_upper_key(trim(csv_fields(data.last())[1]));
            },
            None => {},
        }
    }
}

/// A MAC address with fewer than six hexadecimal digits has no vendor,
/// whatever the table holds.
pub proof fn lemma_short_mac_has_no_vendor(mac: Seq<char>, table: Map<Seq<char>, Seq<char>>)
    requires
        hex_digits_of(mac).len() < 6,
    ensures
        vendor_of(mac, table) == Seq::<char>::empty(),
{
}

/// The vendor of a MAC address is what the table holds under its first six
/// hexadecimal digits in upper case, and those make a key.
pub proof fn lemma_vendor_by_prefix(mac: Seq<char>, table: Map<Seq<char>, Seq<char>>)
    requires
        hex_digits_of(mac).len() >= 6,
    ensures
        is_oui_key(to_upper(hex_digits_of(mac).take(6))),
        table.contains_key(to_upper(hex_digits_of(mac).take(6))) ==> vendor_of(mac, table)
            == table[to_upper(hex_digits_of(mac).take(6))],
        !table.contains_key(to_upper(hex_digits_of(mac).take(6))) ==> vendor_of(mac, table)
            == Seq::<char>::empty(),
{
    lemma_hex_digits_are_hex(mac);
    let head = hex_digits_of(mac).take(6);
    assert forall|i: int| 0 <= i < head.len() implies is_hex_digit(#[trigger] head[i]) by {
        assert(head[i] == hex_digits_of(mac)[i]);
    }
    lemma_upper_key(head);
}

/// What is kept of a text is hexadecimal digits only.
pub proof fn lemma_hex_digits_are_hex(s: Seq<char>)
    ensures
        all_hex(hex_digits_of(s)),
    decreases s.len(),
{
    if s.len() > 0 {
        lemma_hex_digits_are_hex(s.drop_last());
    }
}

/// The separators of a MAC address play no part: two texts with the same
/// hexadecimal digits have the same vendor.
pub proof fn lemma_vendor_ignores_separators(
    a: Seq<char>,
    b: Seq<char>,
    table: Map<Seq<char>, Seq<char>>,
)
    requires
        hex_digits_of(a) == hex_digits_of(b),
    ensures
        vendor_of(a, table) == vendor_of(b, table),
{
}

/// A text without quote marks holds none, and is itself without them.
pub proof fn lemma_no_quotes(s: Seq<char>)
    requires
        forall|i: int| 0 <= i < s.len() ==> s[i] != '"',
    ensures
        quotes_in(s) == 0,
        unquoted(s) == s,
    decreases s.len(),
{
    if s.len() > 0 {
        let front = s.drop_last();
        assert forall|i: int| 0 <= i < front.len() implies front[i] != '"' by {
            assert(front[i] == s[i]);
        }
        lemma_no_quotes(front);
        assert(s[s.len() - 1] != '"');
        assert(front.push(s.last()) == s);
    }
}

/// A line without quote marks is cut at every comma: its fields are the
/// pieces between its commas.
pub proof fn lemma_csv_without_quotes(line: Seq<char>)
    requires
        forall|i: int| 0 <= i < line.len() ==> line[i] != '"',
    ensures
        csv_fields(line) == split(line, ','),
    decreases line.len(),
{
    let i = first_index(line, ',');
    lemma_first_index_is_first(line, ',');
    let head = line.take(i);
    assert forall|j: int| 0 <= j < head.len() implies head[j] != '"' by {
        assert(head[j] == line[j]);
    }
    lemma_no_quotes(head);
    assert forall|j: int| 0 <= j < i implies !is_break(line, j) by {}
    lemma_next_break(line, 0, i);
    if i < line.len() {
        let rest = line.skip(i + 1);
        assert forall|j: int| 0 <= j < rest.len() implies rest[j] != '"' by {
            assert(rest[j] == line[i + 1 + j]);
        }
        lemma_csv_without_quotes(rest);
    } else {
        assert(head == line);
    }
}

/// Builds the vendor table from the text of the dataset: one row to a line,
/// the first line being the header. Rows that are malformed are passed over,
/// and an empty text gives an empty table.
pub fn load_oui_table(content: &str) -> (table: VendorTable)
    ensures
        table@ == oui_entries(data_rows(content@)),
{
    let v = chars_of(content);
    let all = split_lines(v.as_slice());
    let mut table = VendorTable::new();
    if all.len() == 0 {
        return table;
    }
    let ghost data = data_rows(content@);
    let mut i: usize = 1;
    proof {
        assert(data.take(0).len() == 0);
    }
    while i < all.len()
        invariant
            1 <= i <= all.len(),
            rows(all@) == lines(content@),
            data == data_rows(content@),
            table@ == oui_entries(data.take(i - 1)),
        decreases all.len() - i,
    {
        let parts = csv_split(all[i].as_slice());
        proof {
            let t = data.take(i as int);
            assert(t.drop_last() == data.take(i - 1));
            assert(t.last() == all@[i as int]@);
        }
        if parts.len() >= 3 {
            assert(rows(parts@)[1] == parts@[1]@ && rows(parts@)[2] == parts@[2]@);
            table.insert_chars(parts[1].as_slice(), parts[2].as_slice());
        }
        i += 1;
    }
    assert(data.take(all.len() - 1) == data);
    table
}

/// The organization that the table gives for a MAC address, found by the
/// address's first six hexadecimal digits; empty where the address has fewer,
/// or the table has no entry for them.
pub fn lookup_mac_vendor(mac: &str, oui_table: &VendorTable) -> (vendor: String)
    ensures
        vendor@ == vendor_of(mac@, oui_table@),
{
    let v = chars_of(mac);
    let mut digits: Vec<char> = Vec::new();
    let mut i: usize = 0;
    while i < v.len()
        invariant
            i <= v.len(),
            digits@ == hex_digits_of(v@.take(i as int)),
        decreases v.len() - i,
    {
        proof {
            let t = v@.take(i + 1);
            assert(t.drop_last() == v@.take(i as int));
            assert(t.last() == v@[i as int]);
        }
        if is_hex_char(v[i]) {
            digits.push(v[i]);
        }
        i += 1;
    }
    assert(v@.take(v.len() as int) == v@);
    if digits.len() < 6 {
        return String::new();
    }
    let mut head: Vec<char> = Vec::new();
    let mut j: usize = 0;
    while j < 6
        invariant
            j <= 6 <= digits.len(),
            head@ == digits@.take(j as int),
        decreases 6 - j,
    {
        head.push(digits[j]);
        assert(digits@.take(j + 1) == digits@.take(j as int).push(digits@[j as int]));
        j += 1;
    }
    let key = to_upper_chars(head.as_slice());
    let key_text = string_of(key.as_slice());
    match oui_table.get(key_text.as_str()) {
        Some(name) => name,
        None => String::new(),
    }
}

} // verus!
