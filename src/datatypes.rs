use vstd::prelude::*;

use crate::abc::{ABCDataType, trim_end, walk};
use crate::codecs::{
    area_count, green, histogram_of, image_written, invalid_type, is_data, painted, png_url_prefix, read_boolean,
    read_color, read_flood, read_histogram, read_image, unchanged, write_boolean, write_color,
    write_image, wrong_size, wrong_type,
};
use crate::colors::{blank, white};
use crate::counter::{groups, read_counter};
use crate::font::BitmapFont;
use crate::image::{ImageView, StorableImage};
use crate::model::{DataError, Field, FieldType};
use crate::pie::{runs_painted, write_histogram};
use crate::resolve::REFERENCE_TYPE;
use crate::value::DataValue;

verus! {

pub const BOOL_TYPE: u16 = 0b100_110_110;

pub const COLOR_TYPE: u16 = 0b111_100_111;

pub const COUNTER_TYPE: u16 = 0b111_010_111;

pub const FLOOD_TYPE: u16 = 0b111_110_100;

pub const ABC_TYPE: u16 = 0b010_101_101;

pub const PIE_TYPE: u16 = 0b111_101_110;

pub const IMAGE_TYPE: u16 = 0b000_000_000;

/// The codec registry: a fixed table from type code to codec.
pub struct DataTypes {
    pub abc_data_type: ABCDataType,
}

/// What reading a field of type `code` through `v` yields.
pub open spec fn read_result<I: StorableImage>(t: &DataTypes, v: ImageView, img: &I, code: u16, r: Result<DataValue, DataError>) -> bool {
    if code == BOOL_TYPE {
        r == Ok::<DataValue, DataError>(DataValue::Boolean { value: !blank(v.at(img, 0, 0)) })
    } else if code == COLOR_TYPE {
        r == Ok::<DataValue, DataError>(DataValue::Color { value: v.at(img, 0, 0) })
    } else if code == FLOOD_TYPE {
        r == Ok::<DataValue, DataError>(
            DataValue::Float {
                numerator: area_count(v, img, is_data(), v.width as int) as u64,
                denominator: (v.width * v.height) as u64,
            },
        )
    } else if code == COUNTER_TYPE {
        r matches Ok(DataValue::Int { value: n }) && n as int == if groups(v, img, v.height as int) < i32::MAX {
            groups(v, img, v.height as int)
        } else {
            i32::MAX as int
        }
    } else if code == PIE_TYPE {
        r matches Ok(DataValue::Histogram { value, total }) && histogram_of(v, img, value@) && total == v.width
            * v.height
    } else if code == IMAGE_TYPE {
        r matches Ok(DataValue::Image { width, height, data_url }) && width == v.width && height == v.height
            && data_url@ == png_url_prefix() + img.spec_base64(v.x as int, v.y as int, v.width as int, v.height as int)
    } else if code == ABC_TYPE {
        r matches Ok(DataValue::String { value }) && value@ == trim_end(walk(&t.abc_data_type.bitmap_font, v, img, 0, 1))
    } else if code == REFERENCE_TYPE {
        r == Ok::<DataValue, DataError>(DataValue::Null)
    } else {
        r == Err::<DataValue, DataError>(DataError::UnknownType(FieldType(code)))
    }
}

/// What writing `value` to a field of type `code` through `v` does, to
/// the store (from `a` to `b`) and as a result.
pub open spec fn write_result<I: StorableImage>(t: &DataTypes, v: ImageView, a: &I, b: &I, code: u16, value: DataValue, r: Result<(), DataError>) -> bool {
    if code == BOOL_TYPE {
        match value {
            DataValue::Boolean { value: x } => r is Ok && painted(v, a, b, if x { green() } else { white() }),
            _ => r == Err::<(), DataError>(wrong_type()) && unchanged(a, b),
        }
    } else if code == COLOR_TYPE {
        match value {
            DataValue::Color { value: c } => r is Ok && painted(v, a, b, c),
            _ => r == Err::<(), DataError>(wrong_type()) && unchanged(a, b),
        }
    } else if code == PIE_TYPE {
        match value {
            DataValue::Histogram { value: runs, .. } => r is Ok && runs_painted(v, a, b, runs@),
            _ => r == Err::<(), DataError>(wrong_type()) && unchanged(a, b),
        }
    } else if code == IMAGE_TYPE {
        match value {
            DataValue::Image { width, height, data_url } => image_written(v, a, b, width, height, data_url@, r),
            _ => r == Err::<(), DataError>(wrong_type()) && unchanged(a, b),
        }
    } else if code == ABC_TYPE {
        &&& b.spec_width() == a.spec_width()
        &&& b.spec_height() == a.spec_height()
        &&& forall|i: int, j: int| !v.covers(i, j) ==> #[trigger] b.spec_pixel(i, j) == a.spec_pixel(i, j)
        &&& match value {
            DataValue::String { value: text } => r is Ok && forall|i: int, j: int| #[trigger]
                b.spec_pixel(i, j) == if v.covers(i, j) {
                    match t.abc_data_type.bitmap_font.drawn(text@, 1, 1, i - v.x, j - v.y) {
                        Some(c) => c,
                        None => white(),
                    }
                } else {
                    a.spec_pixel(i, j)
                },
            _ => r == Err::<(), DataError>(wrong_type()) && unchanged(a, b),
        }
    } else if code == FLOOD_TYPE || code == COUNTER_TYPE {
        r == Err::<(), DataError>(DataError::NotImplemented) && unchanged(a, b)
    } else if code == REFERENCE_TYPE {
        r == Err::<(), DataError>(wrong_type()) && unchanged(a, b)
    } else {
        r == Err::<(), DataError>(DataError::UnknownType(FieldType(code))) && unchanged(a, b)
    }
}

impl DataTypes {
    pub open spec fn wf(&self) -> bool {
        self.abc_data_type.bitmap_font.wf()
    }

    pub fn new(font: BitmapFont) -> (t: Self)
        requires
            font.wf(),
        ensures
            t.wf(),
            t.abc_data_type.bitmap_font == font,
    {
        DataTypes { abc_data_type: ABCDataType::new(font) }
    }

    /// Reads the field through the codec of `ftype`.
    pub fn read_casted<I: StorableImage>(&self, image: &ImageView, img: &I, field: &Field, ftype: FieldType) -> (r: Result<DataValue, DataError>)
        requires
            self.wf(),
            image.fits(img),
        ensures
            read_result(self, *image, img, ftype.0, r),
    {
        let code = ftype.0;
        if code == BOOL_TYPE {
            read_boolean(image, img)
        } else if code == COLOR_TYPE {
            read_color(image, img)
        } else if code == FLOOD_TYPE {
            read_flood(image, img)
        } else if code == COUNTER_TYPE {
            read_counter(image, img)
        } else if code == PIE_TYPE {
            read_histogram(image, img)
        } else if code == IMAGE_TYPE {
            read_image(image, img)
        } else if code == ABC_TYPE {
            self.abc_data_type.read(image, img)
        } else if code == REFERENCE_TYPE {
            Ok(DataValue::Null)
        } else {
            Err(DataError::UnknownType(ftype))
        }
    }

    /// Reads the field through the codec of its own type.
    pub fn read<I: StorableImage>(&self, image: &ImageView, img: &I, field: &Field) -> (r: Result<DataValue, DataError>)
        requires
            self.wf(),
            image.fits(img),
        ensures
            read_result(self, *image, img, field.field_type.0, r),
    {
        self.read_casted(image, img, field, field.field_type)
    }

    /// Writes the value into the field through the codec of its own type.
    pub fn write<I: StorableImage>(&self, image: &ImageView, img: &mut I, field: &Field, value: DataValue) -> (r: Result<(), DataError>)
        requires
            self.wf(),
            image.fits(old(img)),
        ensures
            image.fits(final(img)),
            write_result(self, *image, old(img), final(img), field.field_type.0, value, r),
    {
        self.write_casted(image, img, field, field.field_type, value)
    }

    /// Writes the value into the field through the codec of `ftype`.
    pub fn write_casted<I: StorableImage>(&self, image: &ImageView, img: &mut I, field: &Field, ftype: FieldType, value: DataValue) -> (r: Result<(), DataError>)
        requires
            self.wf(),
            image.fits(old(img)),
        ensures
            image.fits(final(img)),
            write_result(self, *image, old(img), final(img), ftype.0, value, r),
    {
        let code = ftype.0;
        if code == BOOL_TYPE {
            write_boolean(image, img, value)
        } else if code == COLOR_TYPE {
            write_color(image, img, value)
        } else if code == PIE_TYPE {
            write_histogram(image, img, value)
        } else if code == IMAGE_TYPE {
            write_image(image, img, value)
        } else if code == ABC_TYPE {
            self.abc_data_type.write(image, img, value)
        } else if code == FLOOD_TYPE || code == COUNTER_TYPE {
            Err(DataError::NotImplemented)
        } else if code == REFERENCE_TYPE {
            Err(invalid_type())
        } else {
            Err(DataError::UnknownType(ftype))
        }
    }

    /// The type a new field for this value would take.
    pub fn get_preferred_type(&self, val: &DataValue) -> (r: Option<FieldType>)
        ensures
            r == match *val {
                DataValue::Boolean { .. } => Some(FieldType(BOOL_TYPE)),
                DataValue::Int { .. } => Some(FieldType(COUNTER_TYPE)),
                DataValue::Float { .. } => Some(FieldType(FLOOD_TYPE)),
                DataValue::String { .. } => Some(FieldType(ABC_TYPE)),
                DataValue::Color { .. } => Some(FieldType(COLOR_TYPE)),
                DataValue::Image { .. } => Some(FieldType(IMAGE_TYPE)),
                DataValue::Histogram { .. } => Some(FieldType(PIE_TYPE)),
                _ => None::<FieldType>,
            },
    {
        match val {
            DataValue::Boolean { .. } => Some(FieldType(BOOL_TYPE)),
            DataValue::Int { .. } => Some(FieldType(COUNTER_TYPE)),
            DataValue::Float { .. } => Some(FieldType(FLOOD_TYPE)),
            DataValue::String { .. } => Some(FieldType(ABC_TYPE)),
            DataValue::Color { .. } => Some(FieldType(COLOR_TYPE)),
            DataValue::Image { .. } => Some(FieldType(IMAGE_TYPE)),
            DataValue::Histogram { .. } => Some(FieldType(PIE_TYPE)),
            DataValue::Custom { .. } => None,
            DataValue::Null => None,
        }
    }
}

} // verus!
