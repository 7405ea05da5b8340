use logix::index::builder::IxBuilder;
use logix::index::reader::IxReader;
use logix::query::Query;
use logix::token::tokenize;

struct Dice(u64);

impl Dice {
    fn roll(&mut self, sides: u64) -> u64 {
        self.0 = self.0.wrapping_mul(6364136223846793005).wrapping_add(1442695040888963407);
        (self.0 >> 33) % sides
    }
}

const VOCABULARY: [&str; 8] = ["error", "errors", "err", "warn", "disk", "disks", "net", "ok"];

fn random_log(dice: &mut Dice) -> Vec<(String, u64)> {
    let mut lines = Vec::new();
    let mut offset = 0;
    for _ in 0..dice.roll(12) {
        let mut line = String::new();
        for _ in 0..dice.roll(5) {
            line.push_str(VOCABULARY[dice.roll(8) as usize]);
            line.push(' ');
        }
        let len = line.len() as u64 + 1;
        lines.push((line, offset));
        offset += len;
    }
    lines
}

fn random_query(dice: &mut Dice) -> String {
    let mut query = String::new();
    for alternative in 0..1 + dice.roll(3) {
        if alternative > 0 {
            query.push('|');
        }
        for _ in 0..1 + dice.roll(3) {
            query.push_str(VOCABULARY[dice.roll(8) as usize]);
            query.push(' ');
        }
    }
    query
}

fn matches(token: &str, word: &str, whole_words: bool) -> bool {
    if whole_words {
        token == word
    } else {
        token.starts_with(word)
    }
}

/// The offsets of a word, one for each token that matches it.
fn word_offsets(lines: &[(String, u64)], word: &str, whole_words: bool) -> Vec<u64> {
    let mut offsets = Vec::new();
    for (line, offset) in lines {
        for token in tokenize(line) {
            if matches(&token, word, whole_words) {
                offsets.push(*offset);
            }
        }
    }
    offsets.sort();
    offsets
}

/// What ascending lists have in common, each offset as often as the list
/// that holds it least often.
fn common(lists: &[Vec<u64>]) -> Vec<u64> {
    let mut result = lists[0].clone();
    for list in &lists[1..] {
        let mut left = list.clone();
        result.retain(|offset| match left.iter().position(|other| other == offset) {
            Some(at) => {
                left.remove(at);
                true
            }
            None => false,
        });
    }
    result
}

fn expected(lines: &[(String, u64)], query: &str, whole_words: bool) -> Vec<u64> {
    let mut all = Vec::new();
    for alternative in query.split('|') {
        let lists: Vec<Vec<u64>> = tokenize(alternative)
            .iter()
            .map(|word| word_offsets(lines, word, whole_words))
            .collect();
        if !lists.is_empty() {
            all.extend(common(&lists));
        }
    }
    all.sort();
    all
}

#[test]
fn queries_agree_with_a_scan_of_the_log() {
    let mut dice = Dice(2024);
    for _ in 0..200 {
        let lines = random_log(&mut dice);
        let mut builder = IxBuilder::new();
        for (line, offset) in &lines {
            builder.add_line(line, *offset);
        }
        let mut index = Vec::new();
        builder.write(&mut index).unwrap();
        let ix = IxReader::new(index).unwrap();
        for _ in 0..10 {
            let query = random_query(&mut dice);
            for whole_words in [false, true] {
                let mut reader = ix.query(&Query::parse(&query).unwrap(), whole_words).unwrap();
                let mut found = Vec::new();
                while let Some(offset) = reader.next() {
                    found.push(offset);
                }
                assert_eq!(found, expected(&lines, &query, whole_words), "{:?} in {:?}", query, lines);
            }
        }
    }
}
