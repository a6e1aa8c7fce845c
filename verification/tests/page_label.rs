use pdfboss_core::error::{Error, Result};
use pdfboss_core::object::{Dict, Name, ObjRef, Object, Stream};
use pdfboss_core::page_label::{page_label, page_labels_with, LabelStyle, PageLabel};
use pdfboss_core::parser::{NoResolve, Parser};
use pdfboss_core::source::{ObjectSource, SourceV};
use std::collections::HashMap;

/// A document in memory: its objects by number, and the trailer.
struct Document {
    objects: HashMap<u32, Object>,
    trailer: Dict,
}

impl ObjectSource for Document {
    fn model(&self) -> SourceV {
        unreachable!("a model is only spoken of")
    }

    fn get(&self, r: ObjRef) -> Result<Object> {
        match self.objects.get(&r.num) {
            Some(o) if r.gen == 0 => Ok(o.clone()),
            _ => Err(Error::Other("missing object".to_string())),
        }
    }

    fn stream_data(&self, s: &Stream) -> Result<Vec<u8>> {
        Ok(s.data.clone())
    }
}

/// Collects the objects of a document.
struct PdfBuilder {
    objects: HashMap<u32, Object>,
}

impl PdfBuilder {
    fn new() -> PdfBuilder {
        PdfBuilder { objects: HashMap::new() }
    }

    fn object(&mut self, num: u32, body: &str) {
        let object = Parser::new(body.as_bytes()).parse_object(&NoResolve).expect("an object");
        self.objects.insert(num, object);
    }

    fn build(self, root: u32) -> Document {
        let mut trailer = Dict::new();
        trailer.insert(Name("Root".to_string()), Object::Ref(ObjRef { num: root, gen: 0 }));
        Document { objects: self.objects, trailer }
    }
}

impl Document {
    fn page_count(&self) -> usize {
        let pages = self.objects[&2].as_dict().and_then(|d| d.get_array("Kids"));
        pages.map_or(0, |kids| kids.len())
    }

    fn page_labels(&self) -> Option<Vec<PageLabel>> {
        page_labels_with(self, &self.trailer)
    }

    fn page_label(&self, index: usize) -> Option<String> {
        if index >= self.page_count() {
            return None;
        }
        self.page_labels().map(|ranges| page_label(&ranges, index))
    }
}

#[test]
fn styles_number_pages_as_table_159_says() {
    assert_eq!(LabelStyle::Decimal.numeral(1), "1");
    assert_eq!(LabelStyle::Decimal.numeral(1040), "1040");
    for (n, roman) in [
        (1, "i"),
        (4, "iv"),
        (9, "ix"),
        (14, "xiv"),
        (40, "xl"),
        (90, "xc"),
        (400, "cd"),
        (1994, "mcmxciv"),
        (3999, "mmmcmxcix"),
        (4000, "mmmm"),
    ] {
        assert_eq!(LabelStyle::RomanLower.numeral(n), roman, "{n}");
        assert_eq!(
            LabelStyle::RomanUpper.numeral(n),
            roman.to_uppercase(),
            "{n}"
        );
    }
    for (n, letters) in [(1, "a"), (26, "z"), (27, "aa"), (52, "zz"), (53, "aaa")] {
        assert_eq!(LabelStyle::LettersLower.numeral(n), letters, "{n}");
        assert_eq!(
            LabelStyle::LettersUpper.numeral(n),
            letters.to_uppercase(),
            "{n}"
        );
    }
    assert_eq!(LabelStyle::RomanLower.numeral(0), "");
    assert_eq!(LabelStyle::LettersUpper.numeral(0), "");
    assert_eq!(LabelStyle::Decimal.numeral(0), "0");
    for style in [
        LabelStyle::Decimal,
        LabelStyle::RomanUpper,
        LabelStyle::RomanLower,
        LabelStyle::LettersUpper,
        LabelStyle::LettersLower,
    ] {
        assert_eq!(LabelStyle::from_code(style.code()), Some(style));
    }
    assert_eq!(LabelStyle::from_code("X"), None);
}

fn doc(pages: usize, catalog_extra: &str) -> Document {
    let mut b = PdfBuilder::new();
    b.object(
        1,
        &format!("<< /Type /Catalog /Pages 2 0 R {catalog_extra} >>"),
    );
    let kids: Vec<String> = (0..pages).map(|i| format!("{} 0 R", 10 + i)).collect();
    b.object(
        2,
        &format!(
            "<< /Type /Pages /Kids [{}] /Count {pages} >>",
            kids.join(" ")
        ),
    );
    for i in 0..pages {
        b.object(
            10 + i as u32,
            "<< /Type /Page /Parent 2 0 R /MediaBox [0 0 100 100] >>",
        );
    }
    b.build(1)
}

fn labels(doc: &Document) -> Vec<String> {
    (0..doc.page_count())
        .map(|i| doc.page_label(i).unwrap())
        .collect()
}

#[test]
fn the_clauses_example_labels_its_pages() {
    let doc = doc(
        9,
        "/PageLabels << /Nums [0 << /S /r >> 4 << /S /D >> 7 << /S /D /P (A-) /St 8 >>] >>",
    );
    assert_eq!(
        labels(&doc),
        ["i", "ii", "iii", "iv", "1", "2", "3", "A-8", "A-9"]
    );
    let ranges = doc.page_labels().unwrap();
    assert_eq!(ranges.len(), 3);
    assert_eq!(
        ranges[2],
        PageLabel {
            first_page: 7,
            style: Some(LabelStyle::Decimal),
            prefix: Some("A-".to_string()),
            start_at: 8,
        }
    );
    assert_eq!(doc.page_label(9), None, "past the last page");
}

#[test]
fn ranges_without_a_style_or_a_page_zero_still_label() {
    let mut b = PdfBuilder::new();
    b.object(1, "<< /Type /Catalog /Pages 2 0 R /PageLabels 30 0 R >>");
    b.object(
        2,
        "<< /Type /Pages /Kids [10 0 R 11 0 R 12 0 R 13 0 R 14 0 R] /Count 5 >>",
    );
    for i in 10..15 {
        b.object(i, "<< /Type /Page /Parent 2 0 R /MediaBox [0 0 100 100] >>");
    }
    b.object(
        30,
        "<< /Nums [1 << /P (Cover) >> 2 << /S /D /St 0 >> 3 << /S /Q /P <FEFF00A7> >> 4 (junk)] >>",
    );
    let doc = b.build(1);
    assert_eq!(labels(&doc), ["1", "Cover", "1", "§", "§"]);
    let plain = self::doc(2, "");
    assert_eq!(plain.page_labels(), None);
    assert_eq!(plain.page_label(0), None);
}

#[test]
fn a_label_counts_from_its_range() {
    let range = PageLabel {
        first_page: 4,
        style: Some(LabelStyle::LettersUpper),
        prefix: Some("p".to_string()),
        start_at: 25,
    };
    assert_eq!(range.label(4), "pY");
    assert_eq!(range.label(6), "pAA");
    assert_eq!(page_label(&[range], 2), "3", "a page before every range");
}

/// Reads Roman letters: one before a greater one is taken away.
fn read_roman(text: &str) -> u32 {
    let value = |c: char| match c {
        'M' => 1000,
        'D' => 500,
        'C' => 100,
        'L' => 50,
        'X' => 10,
        'V' => 5,
        'I' => 1,
        other => panic!("no Roman letter: {other}"),
    };
    let values: Vec<u32> = text.chars().map(value).collect();
    let mut total: i64 = 0;
    for (i, v) in values.iter().enumerate() {
        if values.get(i + 1).is_some_and(|next| v < next) {
            total -= i64::from(*v);
        } else {
            total += i64::from(*v);
        }
    }
    total as u32
}

#[test]
fn roman_numerals_read_back_and_heap_no_letters() {
    for n in 1..=5000 {
        let upper = LabelStyle::RomanUpper.numeral(n);
        assert_eq!(read_roman(&upper), n);
        for heap in ["DD", "CCCC", "LL", "XXXX", "VV", "IIII"] {
            assert!(!upper.contains(heap), "{upper}");
        }
        for once in ['D', 'L', 'V'] {
            assert!(upper.matches(once).count() <= 1, "{upper}");
        }
        assert_eq!(LabelStyle::RomanLower.numeral(n), upper.to_lowercase());
        let letters = LabelStyle::LettersUpper.numeral(n);
        let letter = char::from(b'A' + ((n - 1) % 26) as u8);
        assert!(letters.chars().all(|c| c == letter));
        assert_eq!(letters.len() as u32, (n - 1) / 26 + 1);
        assert_eq!(LabelStyle::LettersLower.numeral(n), letters.to_lowercase());
    }
}
