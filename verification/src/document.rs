//! The map file as a whole: header, georeferencing, catalogue of colours and
//! symbols, the features, and the closing part.

use crate::area_object::{fit_views, fits_view, ring_views};
use crate::coord::{copy_line, Coord};
use crate::decimal::{digits_text, fixed_text, push_fixed, push_fixed_size, push_nat};
use crate::geodetic::GeodeticParameters;
use crate::map_object::{MapObject, MapObjectView};
use crate::omap::{bucket_views, object_views, Bucket, BucketView};
use crate::area_object::direct_rings;
use crate::map_coord::{lemma_plain_projection, projected, rounded};
use crate::symbol::Geometry;
use crate::text::{lemma_projected_all, projected_all, Layout, Segment};
use crate::{OmapError, OmapResult, Scale};
use vstd::prelude::*;
use vstd::string::*;

verus! {

/// The catalogue of colours and symbols that a map file carries, one list of
/// symbols for each scale. The library writes these texts as they are.
#[derive(Debug)]
pub struct Catalog {
    pub colors: String,
    pub symbols_10_000: String,
    pub symbols_15_000: String,
}

/// What a catalogue holds.
pub struct CatalogView {
    pub colors: Seq<char>,
    pub symbols_10_000: Seq<char>,
    pub symbols_15_000: Seq<char>,
}

impl View for Catalog {
    type V = CatalogView;

    open spec fn view(&self) -> CatalogView {
        CatalogView {
            colors: self.colors@,
            symbols_10_000: self.symbols_10_000@,
            symbols_15_000: self.symbols_15_000@,
        }
    }
}

/// A place on the globe, in millionths of a degree.
#[derive(Clone, Copy, Debug, PartialEq, Eq, Structural)]
pub struct GeoPoint {
    pub lat: i64,
    pub lon: i64,
}

/// How the features of a map are laid on paper.
pub open spec fn layout_of(params: GeodeticParameters) -> Layout {
    Layout {
        scale: params.scale,
        grivation: params.grivation,
        combined_scale_factor: params.combined_scale_factor,
    }
}

/// The opening of a map file.
pub open spec fn opening_text() -> Seq<char> {
    "<?xml version=\"1.0\" encoding=\"UTF-8\"?>\n<map xmlns=\"http://openorienteering.org/apps/mapper/xml/v2\" version=\"9\">\n<notes></notes>\n"@
}

/// The start of the georeferencing: the scale of the map.
pub open spec fn scale_text(params: GeodeticParameters) -> Seq<char> {
    "<georeferencing scale=\""@ + digits_text(params.scale.spec_denominator() as nat)
}

/// The reference point in metres, easting and northing.
pub open spec fn ref_point_text(params: GeodeticParameters) -> Seq<char> {
    fixed_text(params.ref_point.x as int, 3) + "\" y=\""@ + fixed_text(params.ref_point.y as int, 3)
}

/// The georeferencing of a local map: its scale and its reference point in
/// metres.
pub open spec fn local_text(params: GeodeticParameters) -> Seq<char> {
    scale_text(params) + "\"><projected_crs id=\"Local\"><ref_point x=\""@ + ref_point_text(params)
        + "\"/></projected_crs></georeferencing>\n"@
}

/// The elevation scale factor and the declination in degrees.
pub open spec fn angles_text(params: GeodeticParameters) -> Seq<char> {
    "\" auxiliary_scale_factor=\""@ + fixed_text(params.elevation_scale_factor as int, 9)
        + "\" declination=\""@ + fixed_text(params.declination.microdegrees as int, 6)
}

/// The coordinate reference system by its code.
pub open spec fn crs_text(epsg: u16) -> Seq<char> {
    "\"><projected_crs id=\"EPSG\"><spec language=\"PROJ.4\">+init=epsg:"@ + digits_text(epsg as nat)
        + "</spec><parameter>"@ + digits_text(epsg as nat) + "</parameter><ref_point x=\""@
}

/// The reference point on the globe, in degrees.
pub open spec fn place_text(place: GeoPoint) -> Seq<char> {
    "\"/></projected_crs><geographic_crs id=\"Geographic coordinates\"><spec language=\"PROJ.4\">+proj=latlong +datum=WGS84</spec><ref_point_deg lat=\""@
        + fixed_text(place.lat as int, 6) + "\" lon=\""@ + fixed_text(place.lon as int, 6)
        + "\"/></geographic_crs></georeferencing>"@
}

/// The georeferencing of a map with a coordinate reference system: its
/// scale, its elevation scale factor, its declination in degrees, the code
/// of the system, the reference point in metres and on the globe in degrees.
pub open spec fn projected_text(params: GeodeticParameters, epsg: u16, place: GeoPoint) -> Seq<char> {
    scale_text(params) + angles_text(params) + crs_text(epsg) + ref_point_text(params) + place_text(place)
}

/// The header of a map file: the opening and the georeferencing. A map with
/// a coordinate reference system needs the place of its reference point on
/// the globe; without it there is no header.
pub open spec fn header_text(params: GeodeticParameters, place: Option<GeoPoint>) -> OmapResult<Seq<char>> {
    match params.epsg {
        None => Ok(opening_text() + local_text(params)),
        Some(epsg) => match place {
            Some(p) => Ok(opening_text() + projected_text(params, epsg, p)),
            None => Err(OmapError::Proj),
        },
    }
}

/// The catalogue as it is written: the colours, then the symbols for the
/// scale of the map.
pub open spec fn catalog_text(catalog: CatalogView, scale: Scale) -> Seq<char> {
    catalog.colors + match scale {
        Scale::S10_000 => catalog.symbols_10_000,
        Scale::S15_000 => catalog.symbols_15_000,
    }
}

/// The closing part of a map file.
pub open spec fn closing_text() -> Seq<char> {
    "<templates count=\"0\" first_front_template=\"0\">\n<defaults use_meters_per_pixel=\"true\" meters_per_pixel=\"0\" dpi=\"0\" scale=\"0\"/></templates>\n<view>\n"@
        + "<grid color=\"#646464\" display=\"0\" alignment=\"0\" additional_rotation=\"0\" unit=\"1\" h_spacing=\"500\" v_spacing=\"500\" h_offset=\"0\" v_offset=\"0\" snapping_enabled=\"true\"/>\n"@
        + "<map_view zoom=\"1\" position_x=\"0\" position_y=\"0\"><map opacity=\"1\" visible=\"true\"/><templates count=\"0\"/></map_view>\n</view>\n</map>"@
}

/// The features of the first `k` buckets, bucket after bucket.
pub open spec fn flat(buckets: Seq<BucketView>, k: nat) -> Seq<MapObjectView>
    decreases k,
{
    if k == 0 {
        Seq::empty()
    } else {
        flat(buckets, (k - 1) as nat) + buckets[k - 1].objects
    }
}

/// The outlines of the first `k` features, feature after feature: the lines
/// to which curves are fitted.
pub open spec fn outlines(objects: Seq<MapObjectView>, k: nat) -> Seq<Seq<Coord>>
    decreases k,
{
    if k == 0 {
        Seq::empty()
    } else {
        outlines(objects, (k - 1) as nat) + objects[k - 1].outlines()
    }
}

/// The curves that belong to the feature numbered `i`, where curves are
/// given: as many as the feature has outlines, from where those of the
/// features before it end.
pub open spec fn fits_of(fits: Option<Seq<Seq<Segment>>>, objects: Seq<MapObjectView>, i: int) -> Option<
    Seq<Seq<Segment>>,
> {
    match fits {
        None => None,
        Some(f) => Some(
            f.subrange(
                outlines(objects, i as nat).len() as int,
                outlines(objects, (i + 1) as nat).len() as int,
            ),
        ),
    }
}

/// The first `k` features as they are written, one after the other. The
/// first feature that cannot be written fails them all.
pub open spec fn features_text(
    objects: Seq<MapObjectView>,
    fits: Option<Seq<Seq<Segment>>>,
    layout: Layout,
    k: nat,
) -> OmapResult<Seq<char>>
    decreases k,
{
    if k == 0 {
        Ok(Seq::empty())
    } else {
        match features_text(objects, fits, layout, (k - 1) as nat) {
            Err(e) => Err(e),
            Ok(before) => match objects[k - 1].text(fits_of(fits, objects, k - 1), layout) {
                Err(e) => Err(e),
                Ok(t) => Ok(before + t),
            },
        }
    }
}

/// The part of a map file that holds the features: their number, then each
/// of them. Where curves are given, there must be one for each outline.
pub open spec fn objects_text(
    objects: Seq<MapObjectView>,
    fits: Option<Seq<Seq<Segment>>>,
    layout: Layout,
) -> OmapResult<Seq<char>> {
    if fits.is_some() && fits.unwrap().len() != outlines(objects, objects.len()).len() {
        Err(OmapError::MismatchedGeometry)
    } else {
        match features_text(objects, fits, layout, objects.len()) {
            Err(e) => Err(e),
            Ok(t) => Ok(
                "<parts count=\"1\" current=\"0\">\n<part name=\"map\"><objects count=\""@
                    + digits_text(objects.len()) + "\">\n"@ + t + "</objects></part>\n</parts>\n"@,
            ),
        }
    }
}

/// The whole map file: header, catalogue, features and closing part, or the
/// error of the first part that cannot be written.
pub open spec fn document_text(
    params: GeodeticParameters,
    buckets: Seq<BucketView>,
    fits: Option<Seq<Seq<Segment>>>,
    catalog: CatalogView,
    place: Option<GeoPoint>,
) -> OmapResult<Seq<char>> {
    match header_text(params, place) {
        Err(e) => Err(e),
        Ok(header) => match objects_text(flat(buckets, buckets.len()), fits, layout_of(params)) {
            Err(e) => Err(e),
            Ok(objects) => Ok(header + catalog_text(catalog, params.scale) + objects + closing_text()),
        },
    }
}

fn push_scale(out: &mut String, params: &GeodeticParameters)
    ensures
        final(out)@ == old(out)@ + scale_text(*params),
{
    out.append("<georeferencing scale=\"");
    push_nat(out, params.scale.denominator() as u128);
    assert(out@ =~= old(out)@ + scale_text(*params));
}

fn push_ref_point(out: &mut String, params: &GeodeticParameters)
    ensures
        final(out)@ == old(out)@ + ref_point_text(*params),
{
    push_fixed(out, params.ref_point.x, 3);
    out.append("\" y=\"");
    push_fixed(out, params.ref_point.y, 3);
    assert(out@ =~= old(out)@ + ref_point_text(*params));
}

fn push_angles(out: &mut String, params: &GeodeticParameters)
    ensures
        final(out)@ == old(out)@ + angles_text(*params),
{
    out.append("\" auxiliary_scale_factor=\"");
    push_fixed_size(out, params.elevation_scale_factor, 9);
    out.append("\" declination=\"");
    push_fixed(out, params.declination.microdegrees, 6);
    assert(out@ =~= old(out)@ + angles_text(*params));
}

fn push_crs(out: &mut String, epsg: u16)
    ensures
        final(out)@ == old(out)@ + crs_text(epsg),
{
    out.append("\"><projected_crs id=\"EPSG\"><spec language=\"PROJ.4\">+init=epsg:");
    push_nat(out, epsg as u128);
    out.append("</spec><parameter>");
    push_nat(out, epsg as u128);
    out.append("</parameter><ref_point x=\"");
    assert(out@ =~= old(out)@ + crs_text(epsg));
}

fn push_place(out: &mut String, place: GeoPoint)
    ensures
        final(out)@ == old(out)@ + place_text(place),
{
    out.append(
        "\"/></projected_crs><geographic_crs id=\"Geographic coordinates\"><spec language=\"PROJ.4\">+proj=latlong +datum=WGS84</spec><ref_point_deg lat=\"",
    );
    push_fixed(out, place.lat, 6);
    out.append("\" lon=\"");
    push_fixed(out, place.lon, 6);
    out.append("\"/></geographic_crs></georeferencing>");
    assert(out@ =~= old(out)@ + place_text(place));
}

fn push_opening(out: &mut String)
    ensures
        final(out)@ == old(out)@ + opening_text(),
{
    out.append(
        "<?xml version=\"1.0\" encoding=\"UTF-8\"?>\n<map xmlns=\"http://openorienteering.org/apps/mapper/xml/v2\" version=\"9\">\n<notes></notes>\n",
    );
}

/// Writes the header of a map file. Nothing is written on an error.
pub fn write_header(out: &mut String, params: &GeodeticParameters, place: Option<GeoPoint>) -> (r:
    OmapResult<()>)
    ensures
        match r {
            Ok(_) => header_text(*params, place).is_ok() && final(out)@ == old(out)@ + header_text(
                *params,
                place,
            ).unwrap(),
            Err(e) => header_text(*params, place) == Err::<Seq<char>, OmapError>(e) && final(out)@ == old(
                out,
            )@,
        },
{
    match params.epsg {
        None => {
            push_opening(out);
            push_scale(out, params);
            out.append("\"><projected_crs id=\"Local\"><ref_point x=\"");
            push_ref_point(out, params);
            out.append("\"/></projected_crs></georeferencing>\n");
            assert(out@ =~= old(out)@ + (opening_text() + local_text(*params)));
            Ok(())
        },
        Some(epsg) => {
            let p = match place {
                Some(p) => p,
                None => {
                    return Err(OmapError::Proj);
                },
            };
            push_opening(out);
            push_scale(out, params);
            push_angles(out, params);
            push_crs(out, epsg);
            push_ref_point(out, params);
            push_place(out, p);
            assert(out@ =~= old(out)@ + (opening_text() + projected_text(*params, epsg, p)));
            Ok(())
        },
    }
}

/// Writes the catalogue: the colours, then the symbols for the scale.
pub fn write_colors_symbols(out: &mut String, catalog: &Catalog, scale: Scale)
    ensures
        final(out)@ == old(out)@ + catalog_text(catalog@, scale),
{
    out.append(catalog.colors.as_str());
    match scale {
        Scale::S10_000 => {
            out.append(catalog.symbols_10_000.as_str());
        },
        Scale::S15_000 => {
            out.append(catalog.symbols_15_000.as_str());
        },
    }
    assert(out@ =~= old(out)@ + catalog_text(catalog@, scale));
}

/// Writes the closing part of a map file.
pub fn write_end_of_file(out: &mut String)
    ensures
        final(out)@ == old(out)@ + closing_text(),
{
    out.append(
        "<templates count=\"0\" first_front_template=\"0\">\n<defaults use_meters_per_pixel=\"true\" meters_per_pixel=\"0\" dpi=\"0\" scale=\"0\"/></templates>\n<view>\n",
    );
    out.append(
        "<grid color=\"#646464\" display=\"0\" alignment=\"0\" additional_rotation=\"0\" unit=\"1\" h_spacing=\"500\" v_spacing=\"500\" h_offset=\"0\" v_offset=\"0\" snapping_enabled=\"true\"/>\n",
    );
    out.append(
        "<map_view zoom=\"1\" position_x=\"0\" position_y=\"0\"><map opacity=\"1\" visible=\"true\"/><templates count=\"0\"/></map_view>\n</view>\n</map>",
    );
    assert(out@ =~= old(out)@ + closing_text());
}

/// The views of a list of features that are held elsewhere.
pub open spec fn held_views(objects: Seq<&MapObject>) -> Seq<MapObjectView> {
    objects.map_values(|o: &MapObject| o@)
}

/// The features of a list of buckets, bucket after bucket.
pub fn all_objects(buckets: &Vec<Bucket>) -> (all: Vec<&MapObject>)
    ensures
        held_views(all@) == flat(bucket_views(buckets@), buckets.len() as nat),
{
    let ghost views = bucket_views(buckets@);
    let mut all: Vec<&MapObject> = Vec::new();
    let mut k: usize = 0;
    assert(held_views(all@) =~= flat(views, 0));
    while k < buckets.len()
        invariant
            k <= buckets.len(),
            views == bucket_views(buckets@),
            held_views(all@) == flat(views, k as nat),
        decreases buckets.len() - k,
    {
        let objects = &buckets[k].objects;
        assert(views[k as int].objects == object_views(objects@));
        let ghost before = held_views(all@);
        let mut i: usize = 0;
        assert(before + object_views(objects@).take(0) =~= before);
        while i < objects.len()
            invariant
                i <= objects.len(),
                held_views(all@) == before + object_views(objects@).take(i as int),
            decreases objects.len() - i,
        {
            let ghost sofar = all@;
            all.push(&objects[i]);
            assert(held_views(all@) =~= before + object_views(objects@).take(i + 1)) by {
                assert(held_views(all@) =~= held_views(sofar).push(objects[i as int]@));
                assert(object_views(objects@).take(i + 1) =~= object_views(objects@).take(i as int).push(
                    objects[i as int]@,
                ));
            }
            i += 1;
        }
        assert(object_views(objects@).take(objects.len() as int) =~= object_views(objects@));
        k += 1;
    }
    all
}

/// The lines to which curves are fitted before a map is written as curves:
/// the outlines of the features, feature after feature.
pub fn curve_requests(objects: &Vec<&MapObject>) -> (lines: Vec<Vec<Coord>>)
    ensures
        ring_views(lines@) == outlines(held_views(objects@), objects.len() as nat),
{
    let ghost views = held_views(objects@);
    let mut lines: Vec<Vec<Coord>> = Vec::new();
    let mut k: usize = 0;
    assert(ring_views(lines@) =~= outlines(views, 0));
    while k < objects.len()
        invariant
            k <= objects.len(),
            views == held_views(objects@),
            ring_views(lines@) == outlines(views, k as nat),
        decreases objects.len() - k,
    {
        assert(views[k as int] == objects[k as int]@);
        let ghost before = ring_views(lines@);
        match objects[k] {
            MapObject::LineObject(l) => {
                let copy = copy_line(&l.line);
                lines.push(copy);
                assert(ring_views(lines@) =~= before + seq![l.line@]);
            },
            MapObject::PointObject(_) => {
                assert(before + Seq::<Seq<Coord>>::empty() =~= before);
            },
            MapObject::AreaObject(a) => {
                let ghost rings = a@.rings;
                let copy = copy_line(&a.exterior);
                lines.push(copy);
                assert(ring_views(lines@) =~= before + rings.take(1));
                let mut i: usize = 0;
                while i < a.interiors.len()
                    invariant
                        i <= a.interiors.len(),
                        rings == a@.rings,
                        ring_views(lines@) == before + rings.take(i + 1),
                    decreases a.interiors.len() - i,
                {
                    let ghost sofar = lines@;
                    let copy = copy_line(&a.interiors[i]);
                    lines.push(copy);
                    assert(rings[i + 1] == a.interiors[i as int]@);
                    assert(ring_views(lines@) =~= ring_views(
                        sofar,
                    ).push(copy@));
                    assert(rings.take(i + 2) =~= rings.take(i + 1).push(rings[i + 1]));
                    assert(ring_views(lines@) =~= before + rings.take(i + 2));
                    i += 1;
                }
                assert(rings.take(a.interiors.len() + 1) =~= rings);
            },
        }
        k += 1;
    }
    lines
}

/// The number of outlines of a list of features, where a machine word holds
/// it.
fn count_outlines(objects: &Vec<&MapObject>) -> (r: Option<usize>)
    ensures
        match r {
            Some(n) => n == outlines(held_views(objects@), objects.len() as nat).len(),
            None => outlines(held_views(objects@), objects.len() as nat).len() > usize::MAX,
        },
{
    let ghost views = held_views(objects@);
    let mut total: usize = 0;
    let mut k: usize = 0;
    while k < objects.len()
        invariant
            k <= objects.len(),
            views == held_views(objects@),
            total == outlines(views, k as nat).len(),
        decreases objects.len() - k,
    {
        assert(views[k as int] == objects[k as int]@);
        proof {
            lemma_outlines_grow(views, k + 1);
        }
        let count = match objects[k].outline_count() {
            Some(c) => c,
            None => {
                return None;
            },
        };
        if total > usize::MAX - count {
            return None;
        }
        total = total + count;
        k += 1;
    }
    Some(total)
}

proof fn lemma_outlines_grow(objects: Seq<MapObjectView>, k: int)
    requires
        0 <= k <= objects.len(),
    ensures
        outlines(objects, k as nat).len() <= outlines(objects, objects.len()).len(),
    decreases objects.len() - k,
{
    if k < objects.len() {
        lemma_outlines_grow(objects, k + 1);
    }
}

proof fn lemma_features_fail(
    objects: Seq<MapObjectView>,
    fits: Option<Seq<Seq<Segment>>>,
    layout: Layout,
    k: int,
    e: OmapError,
)
    requires
        0 <= k <= objects.len(),
        features_text(objects, fits, layout, k as nat) == Err::<Seq<char>, OmapError>(e),
    ensures
        features_text(objects, fits, layout, objects.len()) == Err::<Seq<char>, OmapError>(e),
    decreases objects.len() - k,
{
    if k < objects.len() {
        lemma_features_fail(objects, fits, layout, k + 1, e);
    }
}

/// Copies of the curves numbered `from` to `from + count`.
fn copy_fits(fits: &Vec<Vec<Segment>>, from: usize, count: usize) -> (r: Vec<Vec<Segment>>)
    requires
        from + count <= fits.len(),
    ensures
        fit_views(r@) == fit_views(fits@).subrange(from as int, from + count),
{
    let mut r: Vec<Vec<Segment>> = Vec::new();
    let mut i: usize = 0;
    while i < count
        invariant
            i <= count,
            from + count <= fits.len(),
            r.len() == i,
            forall|j: int| 0 <= j < i ==> (#[trigger] r[j])@ == fits[from + j]@,
        decreases count - i,
    {
        let source = &fits[from + i];
        let mut fit: Vec<Segment> = Vec::new();
        let mut j: usize = 0;
        while j < source.len()
            invariant
                j <= source.len(),
                fit@ == source@.take(j as int),
            decreases source.len() - j,
        {
            fit.push(source[j]);
            j += 1;
        }
        assert(source@.take(source.len() as int) =~= source@);
        r.push(fit);
        i += 1;
    }
    assert(fit_views(r@) =~= fit_views(fits@).subrange(from as int, from + count));
    r
}

/// Writes one feature behind those before it, for its own curves among
/// `fits` where curves are given. `cursor` counts the outlines of the
/// features before it.
fn write_feature(
    body: &mut String,
    objects: &Vec<&MapObject>,
    k: usize,
    fits: Option<&Vec<Vec<Segment>>>,
    cursor: usize,
    layout: &Layout,
) -> (r: OmapResult<usize>)
    requires
        k < objects.len(),
        fits.is_some() ==> fits.unwrap().len() == outlines(held_views(objects@), objects.len() as nat).len(),
        fits.is_some() ==> cursor == outlines(held_views(objects@), k as nat).len(),
    ensures
        match r {
            Ok(next) => held_views(objects@)[k as int].text(
                fits_of(fits_view(fits), held_views(objects@), k as int),
                *layout,
            ).is_ok() && final(body)@ == old(body)@ + held_views(objects@)[k as int].text(
                fits_of(fits_view(fits), held_views(objects@), k as int),
                *layout,
            ).unwrap() && (fits.is_some() ==> next == outlines(held_views(objects@), (k + 1) as nat).len()),
            Err(e) => held_views(objects@)[k as int].text(
                fits_of(fits_view(fits), held_views(objects@), k as int),
                *layout,
            ) == Err::<Seq<char>, OmapError>(e) && final(body)@ == old(body)@,
        },
{
    let ghost views = held_views(objects@);
    assert(views[k as int] == objects[k as int]@);
    match fits {
        None => {
            objects[k].write_to_map(body, None, layout)?;
            Ok(cursor)
        },
        Some(f) => {
            proof {
                lemma_outlines_grow(views, k + 1);
            }
            let count = match objects[k].outline_count() {
                Some(c) => c,
                None => {
                    assert(false);
                    return Err(OmapError::MismatchedGeometry);
                },
            };
            let mine = copy_fits(f, cursor, count);
            assert(fits_of(fits_view(fits), views, k as int) == Some(fit_views(mine@)));
            objects[k].write_to_map(body, Some(&mine), layout)?;
            Ok(cursor + count)
        },
    }
}

/// Writes the features one after the other. Nothing is written on an error.
fn write_features(
    body: &mut String,
    objects: &Vec<&MapObject>,
    fits: Option<&Vec<Vec<Segment>>>,
    layout: &Layout,
) -> (r: OmapResult<()>)
    requires
        fits.is_some() ==> fits.unwrap().len() == outlines(held_views(objects@), objects.len() as nat).len(),
    ensures
        match r {
            Ok(_) => features_text(held_views(objects@), fits_view(fits), *layout, objects.len() as nat)
                == Ok::<Seq<char>, OmapError>(final(body)@.skip(old(body)@.len() as int)) && final(body)@
                == old(body)@ + final(body)@.skip(old(body)@.len() as int),
            Err(e) => features_text(held_views(objects@), fits_view(fits), *layout, objects.len() as nat)
                == Err::<Seq<char>, OmapError>(e),
        },
{
    let ghost views = held_views(objects@);
    let ghost fv = fits_view(fits);
    let ghost written = Seq::<char>::empty();
    let mut cursor: usize = 0;
    let mut k: usize = 0;
    assert(body@ =~= old(body)@ + written);
    while k < objects.len()
        invariant
            k <= objects.len(),
            views == held_views(objects@),
            fv == fits_view(fits),
            fits.is_some() ==> fits.unwrap().len() == outlines(views, objects.len() as nat).len(),
            fits.is_some() ==> cursor == outlines(views, k as nat).len(),
            features_text(views, fv, *layout, k as nat) == Ok::<Seq<char>, OmapError>(written),
            body@ == old(body)@ + written,
        decreases objects.len() - k,
    {
        match write_feature(body, objects, k, fits, cursor, layout) {
            Ok(next) => {
                cursor = next;
                proof {
                    let t = views[k as int].text(fits_of(fv, views, k as int), *layout).unwrap();
                    assert(body@ =~= old(body)@ + (written + t));
                    written = written + t;
                }
            },
            Err(e) => {
                proof {
                    lemma_features_fail(views, fv, *layout, k + 1, e);
                }
                return Err(e);
            },
        }
        k += 1;
    }
    assert((old(body)@ + written).skip(old(body)@.len() as int) =~= written);
    Ok(())
}

/// Writes the part of a map file that holds the features: their number,
/// then each of them, for the curves of `fits` where they are given. Nothing
/// is written on an error.
pub fn write_objects(
    out: &mut String,
    objects: &Vec<&MapObject>,
    fits: Option<&Vec<Vec<Segment>>>,
    layout: &Layout,
) -> (r: OmapResult<()>)
    ensures
        match r {
            Ok(_) => objects_text(held_views(objects@), fits_view(fits), *layout).is_ok() && final(out)@
                == old(out)@ + objects_text(held_views(objects@), fits_view(fits), *layout).unwrap(),
            Err(e) => objects_text(held_views(objects@), fits_view(fits), *layout) == Err::<
                Seq<char>,
                OmapError,
            >(e) && final(out)@ == old(out)@,
        },
{
    let ghost views = held_views(objects@);
    let ghost fv = fits_view(fits);
    match fits {
        Some(f) => {
            assert(fv.unwrap().len() == f.len());
            match count_outlines(objects) {
                Some(n) => {
                    if n != f.len() {
                        return Err(OmapError::MismatchedGeometry);
                    }
                },
                None => {
                    return Err(OmapError::MismatchedGeometry);
                },
            }
        },
        None => {},
    }
    let mut body = String::new();
    write_features(&mut body, objects, fits, layout)?;
    assert(body@ =~= features_text(views, fv, *layout, objects.len() as nat).unwrap());
    out.append("<parts count=\"1\" current=\"0\">\n<part name=\"map\"><objects count=\"");
    push_nat(out, objects.len() as u128);
    out.append("\">\n");
    out.append(body.as_str());
    out.append("</objects></part>\n</parts>\n");
    assert(out@ =~= old(out)@ + objects_text(views, fv, *layout).unwrap());
    Ok(())
}

/// The text of a whole map file: header, catalogue, features and closing
/// part. `fits`, where given, holds the curves fitted to the lines that
/// `curve_requests` lists, one for each and in their order; the features are
/// then written as curves. `place` is the reference point on the globe, which
/// a map with a coordinate reference system needs.
pub fn document(
    params: &GeodeticParameters,
    buckets: &Vec<Bucket>,
    fits: Option<&Vec<Vec<Segment>>>,
    catalog: &Catalog,
    place: Option<GeoPoint>,
) -> (r: OmapResult<String>)
    ensures
        match r {
            Ok(text) => document_text(
                *params,
                bucket_views(buckets@),
                fits_view(fits),
                catalog@,
                place,
            ) == Ok::<Seq<char>, OmapError>(text@),
            Err(e) => document_text(*params, bucket_views(buckets@), fits_view(fits), catalog@, place)
                == Err::<Seq<char>, OmapError>(e),
        },
{
    let mut out = String::new();
    write_header(&mut out, params, place)?;
    write_colors_symbols(&mut out, catalog, params.scale);
    let objects = all_objects(buckets);
    let layout = Layout {
        scale: params.scale,
        grivation: params.grivation,
        combined_scale_factor: params.combined_scale_factor,
    };
    write_objects(&mut out, &objects, fits, &layout)?;
    write_end_of_file(&mut out);
    proof {
        let header = header_text(*params, place).unwrap();
        let features = objects_text(held_views(objects@), fits_view(fits), layout).unwrap();
        assert(out@ =~= header + catalog_text(catalog@, params.scale) + features + closing_text());
    }
    Ok(out)
}


/// Whether a feature holds a position: as the point, on the line, or on one
/// of the rings.
pub open spec fn holds(o: MapObjectView, v: Coord) -> bool {
    match o {
        MapObjectView::Line(l) => l.line.contains(v),
        MapObjectView::Point(p) => p.point == v,
        MapObjectView::Area(a) => exists|r: int| 0 <= r < a.rings.len() && (#[trigger] a.rings[r]).contains(v),
    }
}

/// Whether a position has no place on paper.
pub open spec fn off_paper(v: Coord, layout: Layout) -> bool {
    projected(v, layout.scale, layout.grivation, layout.combined_scale_factor).is_none()
}

/// Whether nothing but a position off the paper can keep a feature from
/// being written position by position.
pub open spec fn sound(o: MapObjectView, layout: Layout) -> bool {
    o.text(None, layout).is_ok() || o.text(None, layout) == Err::<Seq<char>, OmapError>(
        OmapError::MapCoordinateOverflow,
    )
}

proof fn lemma_rings_off_paper(rings: Seq<Seq<Coord>>, layout: Layout, r: int)
    requires
        0 <= r < rings.len(),
        projected_all(rings[r], layout).is_none(),
    ensures
        direct_rings(rings, layout).is_err(),
    decreases rings.len(),
{
    if r < rings.len() - 1 {
        lemma_rings_off_paper(rings.drop_last(), layout, r);
    }
}

/// A feature that holds a position off the paper is not written. A line of
/// two positions or more under a symbol for lines, and a point under a
/// symbol for points, then fail for that reason and no other.
pub proof fn lemma_feature_off_paper(o: MapObjectView, layout: Layout, v: Coord)
    requires
        holds(o, v),
        off_paper(v, layout),
    ensures
        o.text(None, layout).is_err(),
        match o {
            MapObjectView::Line(l) => l.is_line() ==> sound(o, layout),
            MapObjectView::Point(p) => p.symbol.geometry == Geometry::Point ==> sound(o, layout),
            MapObjectView::Area(a) => true,
        },
{
    reveal(MapObjectView::text);
    match o {
        MapObjectView::Line(l) => {
            lemma_projected_all(l.line, layout);
            let i = choose|i: int| 0 <= i < l.line.len() && l.line[i] == v;
            assert(off_paper(l.line[i], layout));
            assert(l.polyline(layout).is_err());
        },
        MapObjectView::Point(p) => {},
        MapObjectView::Area(a) => {
            let r = choose|r: int| 0 <= r < a.rings.len() && (#[trigger] a.rings[r]).contains(v);
            lemma_projected_all(a.rings[r], layout);
            let i = choose|i: int| 0 <= i < a.rings[r].len() && a.rings[r][i] == v;
            assert(off_paper(a.rings[r][i], layout));
            lemma_rings_off_paper(a.rings, layout, r);
        },
    }
}

proof fn lemma_features_off_paper(objects: Seq<MapObjectView>, layout: Layout, k: nat, j: int)
    requires
        k <= objects.len(),
        forall|i: int| 0 <= i < objects.len() ==> sound(#[trigger] objects[i], layout),
        0 <= j < objects.len(),
        objects[j].text(None, layout).is_err(),
    ensures
        features_text(objects, None, layout, k).is_ok() || features_text(objects, None, layout, k) == Err::<
            Seq<char>,
            OmapError,
        >(OmapError::MapCoordinateOverflow),
        j < k ==> features_text(objects, None, layout, k).is_err(),
    decreases k,
{
    if k > 0 {
        lemma_features_off_paper(objects, layout, (k - 1) as nat, j);
        assert(sound(objects[k - 1], layout));
        assert(fits_of(None, objects, k - 1).is_none());
    }
}

/// A map with a feature that holds a position off the paper is not written
/// position by position: there is no text, and where nothing else is amiss,
/// the header can be written and every feature is sound, the error is that
/// of the position. No position is ever cut down to fit.
pub proof fn lemma_map_off_paper(
    params: GeodeticParameters,
    buckets: Seq<BucketView>,
    catalog: CatalogView,
    place: Option<GeoPoint>,
    j: int,
    v: Coord,
)
    requires
        0 <= j < flat(buckets, buckets.len()).len(),
        holds(flat(buckets, buckets.len())[j], v),
        off_paper(v, layout_of(params)),
        header_text(params, place).is_ok(),
        forall|i: int|
            0 <= i < flat(buckets, buckets.len()).len() ==> sound(
                #[trigger] flat(buckets, buckets.len())[i],
                layout_of(params),
            ),
    ensures
        document_text(params, buckets, None, catalog, place) == Err::<Seq<char>, OmapError>(
            OmapError::MapCoordinateOverflow,
        ),
{
    let objects = flat(buckets, buckets.len());
    let layout = layout_of(params);
    lemma_feature_off_paper(objects[j], layout, v);
    lemma_features_off_paper(objects, layout, objects.len(), j);
}

/// On a local map every position is written as its thousandfold over the
/// scale, rounded: the positions of a line on paper are its positions on the
/// ground, neither turned nor stretched, and a position at the reference
/// point is written as `0 0`.
pub proof fn lemma_local_positions(line: Seq<Coord>, ref_point: Coord, scale: Scale)
    ensures
        match projected_all(line, layout_of(GeodeticParameters::spec_local(ref_point, scale))) {
            Some(points) => points.len() == line.len() && forall|i: int|
                0 <= i < line.len() ==> (#[trigger] points[i]).0 == rounded(
                    1000 * line[i].x,
                    scale.spec_denominator(),
                ) && points[i].1 == rounded(1000 * line[i].y, scale.spec_denominator()),
            None => true,
        },
        projected_all(
            seq![Coord { x: 0, y: 0 }],
            layout_of(GeodeticParameters::spec_local(ref_point, scale)),
        ) == Some(seq![(0i32, 0i32)]),
{
    let layout = layout_of(GeodeticParameters::spec_local(ref_point, scale));
    lemma_projected_all(line, layout);
    match projected_all(line, layout) {
        Some(points) => {
            assert forall|i: int| 0 <= i < line.len() implies (#[trigger] points[i]).0 == rounded(
                1000 * line[i].x,
                scale.spec_denominator(),
            ) && points[i].1 == rounded(1000 * line[i].y, scale.spec_denominator()) by {
                lemma_plain_projection(line[i], scale);
                assert(projected(
                    line[i],
                    layout.scale,
                    layout.grivation,
                    layout.combined_scale_factor,
                ) == Some(points[i]));
            }
        },
        None => {},
    }
    let origin = Coord { x: 0, y: 0 };
    lemma_plain_projection(origin, scale);
    assert(rounded(0, scale.spec_denominator()) == 0);
    assert(projected(origin, layout.scale, layout.grivation, layout.combined_scale_factor) == Some(
        (0i32, 0i32),
    ));
    let one = seq![origin];
    assert(one.drop_last() =~= Seq::<Coord>::empty());
    assert(projected_all(one.drop_last(), layout) == Some(Seq::<(i32, i32)>::empty()));
    assert(Seq::<(i32, i32)>::empty().push((0i32, 0i32)) =~= seq![(0i32, 0i32)]);
}

} // verus!
