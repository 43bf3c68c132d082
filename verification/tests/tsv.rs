use std::str::FromStr;
use template_cke::Interpolator;

pub const TSV_TEXT: &str = "\
# Template cases: each row renders `chunk_coordinates` through `template`.
template\tseparator\tchunk_coordinates\tencoded\tnote
potato{0}-{2}/{4:03}_{*},{-1}suffix\t:\t0,1,2,3,4,5,6\tpotato0-2/004_1:3:5,6suffix\tall placeholder kinds
c/{0}/{1}\t/\t3,4\tc/3/4\tplain indices
{*}\t.\t1,2,3\t1.2.3\tcatch-all only
{-1}\t.\t7,8,9\t9\tnegative index
{{{0}}}\t.\t5\t{5}\tescaped braces
{0:05}\t.\t42\t00042\tpadding
{*:03}\t-\t1,22,333\t001-022-333\tpadded catch-all
x{0}y{*}\t,\t1,2,3\tx1y2,3\tcatch-all skips named index
";

#[derive(Debug, Clone)]
pub struct TestCase {
    pub template: String,
    pub separator: String,
    pub chunk_coordinates: Vec<u64>,
    pub encoded: String,
    pub note: String,
}

impl TestCase {
    pub fn interpolator(&self) -> Result<Interpolator, String> {
        Interpolator::try_new(&self.template, Some(self.separator.as_str()))
            .map_err(|e| format!("{:?}", e))
    }

    pub fn run(&self) -> Result<(), String> {
        let interpolator = self.interpolator()?;
        let encoded = interpolator
            .interpolate(&self.chunk_coordinates)
            .map_err(|e| format!("{:?}", e))?;
        assert_eq!(
            encoded, self.encoded,
            "Encoding mismatch for template='{}', separator='{}':\n  expected: '{}'\n       got: '{}'",
            self.template, self.separator, self.encoded, encoded
        );
        Ok(())
    }

    pub fn from_tsv_row(row: &str) -> Self {
        let fields: Vec<&str> = row.trim().split('\t').collect();
        if fields.len() != 5 {
            panic!("Expected 5 fields in TSV row, got {}", fields.len());
        }
        let template = fields[0].trim().to_string();
        let separator = fields[1].trim().to_string();
        let chunk_coordinates = fields[2]
            .trim()
            .split(',')
            .map(|s| u64::from_str(s.trim()).expect("Invalid chunk coordinate"))
            .collect();
        let encoded = fields[3].trim().to_string();
        let note = fields[4].trim().to_string();

        Self {
            template,
            separator,
            chunk_coordinates,
            encoded,
            note,
        }
    }

    pub fn from_tsv(tsv: &str) -> Vec<Self> {
        let mut lines = tsv
            .lines()
            .filter(|line| !line.trim().is_empty() && !line.starts_with('#'));
        let headers: Vec<_> = lines
            .next()
            .expect("TSV must have a header row")
            .trim()
            .split('\t')
            .map(|s| s.trim())
            .collect();
        if headers.len() != 5 {
            panic!("Expected 5 columns in TSV header, got {}", headers.len());
        }
        lines.map(Self::from_tsv_row).collect()
    }
}

#[test]
fn test_tsv_cases() {
    assert!(!TestCase::from_tsv(TSV_TEXT).is_empty());
}

#[test]
fn test_interpolator_encoding() {
    for test_case in TestCase::from_tsv(TSV_TEXT).iter() {
        test_case.run().unwrap()
    }
}
